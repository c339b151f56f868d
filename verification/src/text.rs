//! Small character-level helpers shared by the parser, the board and the
//! viewer: ASCII classification and building `String`s out of characters.

use vstd::prelude::*;

verus! {

/// Whether `c` is an ASCII decimal digit.
pub open spec fn is_digit(c: char) -> bool {
    '0' <= c && c <= '9'
}

/// Whether `c` is an ASCII letter.
pub open spec fn is_ascii_letter(c: char) -> bool {
    ('a' <= c && c <= 'z') || ('A' <= c && c <= 'Z')
}

/// The ASCII upper-case form of `c`; every other character is unchanged.
pub open spec fn ascii_upper(c: char) -> char {
    if 'a' <= c && c <= 'z' {
        ((c as int) - 32) as char
    } else {
        c
    }
}

/// The ASCII lower-case form of `c`; every other character is unchanged.
pub open spec fn ascii_lower(c: char) -> char {
    if 'A' <= c && c <= 'Z' {
        ((c as int) + 32) as char
    } else {
        c
    }
}

pub fn digit(c: char) -> (r: bool)
    ensures
        r == is_digit(c),
{
    '0' <= c && c <= '9'
}

pub fn to_upper(c: char) -> (r: char)
    ensures
        r == ascii_upper(c),
{
    if 'a' <= c && c <= 'z' {
        ((c as u8) - 32) as char
    } else {
        c
    }
}

pub fn to_lower(c: char) -> (r: char)
    ensures
        r == ascii_lower(c),
{
    if 'A' <= c && c <= 'Z' {
        ((c as u8) + 32) as char
    } else {
        c
    }
}

/// Appends one character to a `String` (`String::push`).
#[verifier::external_body]
pub(crate) fn push_char(s: &mut String, c: char)
    ensures
        final(s)@ == old(s)@.push(c),
{
    s.push(c);
}

} // verus!

verus! {

/// The characters of a string slice, in order.
pub fn chars_of(s: &str) -> (chars: Vec<char>)
    ensures
        chars@ == s@,
{
    let mut chars: Vec<char> = Vec::new();
    for c in it: s.chars()
        invariant
            chars@ == it.seq().take(it.index() as int),
    {
        chars.push(c);
    }
    chars
}

} // verus!

verus! {

/// A `String` holding the given characters.
pub fn string_from(chars: &Vec<char>) -> (s: String)
    ensures
        s@ == chars@,
{
    let mut s = String::new();
    let mut i: usize = 0;
    while i < chars.len()
        invariant
            i <= chars.len(),
            s@ == chars@.take(i as int),
        decreases chars.len() - i,
    {
        push_char(&mut s, chars[i]);
        i += 1;
        proof {
            assert(s@ =~= chars@.take(i as int));
        }
    }
    proof {
        assert(chars@.take(i as int) =~= chars@);
    }
    s
}

/// The characters `from..to` of `chars`.
pub fn slice_chars(chars: &Vec<char>, from: usize, to: usize) -> (part: Vec<char>)
    requires
        from <= to <= chars.len(),
    ensures
        part@ == chars@.subrange(from as int, to as int),
{
    let mut part: Vec<char> = Vec::new();
    let mut i: usize = from;
    while i < to
        invariant
            from <= i <= to <= chars.len(),
            part@ == chars@.subrange(from as int, i as int),
        decreases to - i,
    {
        part.push(chars[i]);
        i += 1;
        proof {
            assert(part@ =~= chars@.subrange(from as int, i as int));
        }
    }
    part
}

/// Appends the characters of `extra` to `chars`.
pub fn extend_chars(chars: &mut Vec<char>, extra: &Vec<char>)
    ensures
        final(chars)@ == old(chars)@ + extra@,
{
    let mut i: usize = 0;
    while i < extra.len()
        invariant
            i <= extra.len(),
            chars@ == old(chars)@ + extra@.take(i as int),
        decreases extra.len() - i,
    {
        chars.push(extra[i]);
        i += 1;
        proof {
            assert(chars@ =~= old(chars)@ + extra@.take(i as int));
        }
    }
    proof {
        assert(extra@.take(i as int) =~= extra@);
    }
}

/// Appends the characters of a string slice to `chars`.
pub fn extend_with_str(chars: &mut Vec<char>, extra: &str)
    ensures
        final(chars)@ == old(chars)@ + extra@,
{
    let extra_chars = chars_of(extra);
    extend_chars(chars, &extra_chars);
}

} // verus!

verus! {

/// The characters with the Unicode `White_Space` property, which is what
/// `char::is_whitespace` tests.
pub open spec fn is_white_space(c: char) -> bool {
    ('\u{9}' <= c && c <= '\u{d}') || c == ' ' || c == '\u{85}' || c == '\u{a0}' || c
        == '\u{1680}' || ('\u{2000}' <= c && c <= '\u{200a}') || c == '\u{2028}' || c
        == '\u{2029}' || c == '\u{202f}' || c == '\u{205f}' || c == '\u{3000}'
}

/// Whether a character has the Unicode `White_Space` property, as
/// `char::is_whitespace` and `str::trim` decide it.
pub fn is_whitespace(c: char) -> (r: bool)
    ensures
        r == is_white_space(c),
{
    ('\u{9}' <= c && c <= '\u{d}') || c == ' ' || c == '\u{85}' || c == '\u{a0}' || c
        == '\u{1680}' || ('\u{2000}' <= c && c <= '\u{200a}') || c == '\u{2028}' || c
        == '\u{2029}' || c == '\u{202f}' || c == '\u{205f}' || c == '\u{3000}'
}

/// `s` without its leading whitespace.
pub open spec fn trim_start(s: Seq<char>) -> Seq<char>
    decreases s.len(),
{
    if s.len() > 0 && is_white_space(s[0]) {
        trim_start(s.skip(1))
    } else {
        s
    }
}

/// `s` without its trailing whitespace.
pub open spec fn trim_end(s: Seq<char>) -> Seq<char>
    decreases s.len(),
{
    if s.len() > 0 && is_white_space(s.last()) {
        trim_end(s.drop_last())
    } else {
        s
    }
}

/// `s` without leading and trailing whitespace, as `str::trim` leaves it.
pub open spec fn trim(s: Seq<char>) -> Seq<char> {
    trim_end(trim_start(s))
}

/// The characters of `chars[from..to]` without leading and trailing
/// whitespace.
pub fn trimmed(chars: &Vec<char>, from: usize, to: usize) -> (t: Vec<char>)
    requires
        from <= to <= chars.len(),
    ensures
        t@ == trim(chars@.subrange(from as int, to as int)),
{
    let mut start = from;
    while start < to && is_whitespace(chars[start])
        invariant
            from <= start <= to <= chars.len(),
            trim_start(chars@.subrange(from as int, to as int)) == trim_start(
                chars@.subrange(start as int, to as int),
            ),
        decreases to - start,
    {
        proof {
            assert(chars@.subrange(start as int, to as int).skip(1) =~= chars@.subrange(
                start + 1,
                to as int,
            ));
        }
        start += 1;
    }
    proof {
        let s = chars@.subrange(start as int, to as int);
        assert(!(s.len() > 0 && is_white_space(s[0])));
    }
    let mut end = to;
    while end > start && is_whitespace(chars[end - 1])
        invariant
            from <= start <= end <= to <= chars.len(),
            trim(chars@.subrange(from as int, to as int)) == trim_end(
                chars@.subrange(start as int, end as int),
            ),
        decreases end,
    {
        proof {
            assert(chars@.subrange(start as int, end as int).drop_last() =~= chars@.subrange(
                start as int,
                end - 1,
            ));
        }
        end -= 1;
    }
    slice_chars(chars, start, end)
}

/// Whether two character sequences are equal once ASCII letters are
/// compared without regard to case.
pub open spec fn eq_ignore_ascii_case(a: Seq<char>, b: Seq<char>) -> bool {
    a.len() == b.len() && forall|k: int| 0 <= k < a.len() ==> ascii_lower(#[trigger] a[k]) == ascii_lower(b[k])
}

pub fn equal_ignoring_ascii_case(a: &Vec<char>, b: &Vec<char>) -> (r: bool)
    ensures
        r == eq_ignore_ascii_case(a@, b@),
{
    if a.len() != b.len() {
        return false;
    }
    let mut k: usize = 0;
    while k < a.len()
        invariant
            a.len() == b.len(),
            k <= a.len(),
            forall|j: int| 0 <= j < k ==> ascii_lower(#[trigger] a@[j]) == ascii_lower(b@[j]),
        decreases a.len() - k,
    {
        if to_lower(a[k]) != to_lower(b[k]) {
            return false;
        }
        k += 1;
    }
    true
}

/// The parts joined with `separator` between each two.
pub open spec fn join(parts: Seq<Seq<char>>, separator: Seq<char>) -> Seq<char>
    decreases parts.len(),
{
    if parts.len() == 0 {
        seq![]
    } else if parts.len() == 1 {
        parts[0]
    } else {
        join(parts.drop_last(), separator) + separator + parts.last()
    }
}

pub fn join_chars(parts: &Vec<Vec<char>>, separator: &Vec<char>) -> (joined: Vec<char>)
    ensures
        joined@ == join(parts@.map_values(|p: Vec<char>| p@), separator@),
{
    let ghost views = parts@.map_values(|p: Vec<char>| p@);
    let mut joined: Vec<char> = Vec::new();
    let mut k: usize = 0;
    while k < parts.len()
        invariant
            k <= parts.len(),
            views == parts@.map_values(|p: Vec<char>| p@),
            joined@ == join(views.take(k as int), separator@),
        decreases parts.len() - k,
    {
        if k > 0 {
            extend_chars(&mut joined, separator);
        }
        extend_chars(&mut joined, &parts[k]);
        proof {
            assert(views.take(k + 1).drop_last() =~= views.take(k as int));
            if k == 0 {
                assert(views.take(1)[0] == parts@[0]@);
                assert(joined@ =~= views.take(1)[0]);
            }
        }
        k += 1;
    }
    proof {
        assert(views.take(k as int) =~= views);
    }
    joined
}

} // verus!

verus! {

/// The decimal digit of a number below ten.
pub open spec fn digit_char(d: int) -> char {
    (48 + d) as char
}

/// A number written in decimal, without leading zeros.
pub open spec fn decimal(n: nat) -> Seq<char>
    decreases n,
{
    if n < 10 {
        seq![digit_char(n as int)]
    } else {
        decimal(n / 10).push(digit_char((n % 10) as int))
    }
}

/// A number written in decimal, without leading zeros.
pub fn decimal_text(n: usize) -> (text: Vec<char>)
    ensures
        text@ == decimal(n as nat),
    decreases n,
{
    if n < 10 {
        let mut text: Vec<char> = Vec::new();
        text.push(((n as u8) + 48) as char);
        proof {
            assert(text@ =~= decimal(n as nat));
        }
        text
    } else {
        let mut text = decimal_text(n / 10);
        text.push((((n % 10) as u8) + 48) as char);
        text
    }
}

/// What `{:?}` writes for a character: the character quoted, with escapes.
pub uninterp spec fn char_debug(c: char) -> Seq<char>;

/// The `Debug` text of a character (`format!("{c:?}")`).
#[verifier::external_body]
pub(crate) fn debug_char(c: char) -> (text: String)
    ensures
        text@ == char_debug(c),
{
    format!("{c:?}")
}

} // verus!

verus! {

/// The position of the first newline at or after `i`, or the end of `s`.
pub open spec fn newline_index(s: Seq<char>, i: int) -> int
    decreases s.len() - i,
{
    if i < 0 || i >= s.len() {
        s.len() as int
    } else if s[i] == '\n' {
        i
    } else {
        newline_index(s, i + 1)
    }
}

pub proof fn lemma_newline_index(s: Seq<char>, i: int, m: int)
    requires
        0 <= i <= m <= s.len(),
        forall|j: int| i <= j < m ==> s[j] != '\n',
        m == s.len() || s[m] == '\n',
    ensures
        newline_index(s, i) == m,
    decreases m - i,
{
    if i < m {
        lemma_newline_index(s, i + 1, m);
    }
}

/// The pieces of `s` between newlines, in order; a text ending in a newline
/// ends in an empty piece.
pub open spec fn split_lines(s: Seq<char>) -> Seq<Seq<char>>
    decreases s.len(),
{
    let k = newline_index(s, 0);
    if k < 0 || k >= s.len() {
        seq![s]
    } else {
        seq![s.take(k)] + split_lines(s.skip(k + 1))
    }
}

} // verus!

verus! {

// ===========================================================================
// LAWS OF TRIMMING AND DECIMALS
// ===========================================================================

proof fn lemma_trim_start_shape(s: Seq<char>)
    ensures
        ({
            let a = s.len() - trim_start(s).len();
            &&& 0 <= a <= s.len()
            &&& trim_start(s) == s.skip(a)
            &&& forall|k: int| 0 <= k < a ==> is_white_space(#[trigger] s[k])
            &&& trim_start(s).len() > 0 ==> !is_white_space(trim_start(s)[0])
        }),
    decreases s.len(),
{
    if s.len() > 0 && is_white_space(s[0]) {
        let rest = s.skip(1);
        lemma_trim_start_shape(rest);
        let a = s.len() - trim_start(s).len();
        assert(rest.skip(a - 1) =~= s.skip(a));
        assert forall|k: int| 0 <= k < a implies is_white_space(#[trigger] s[k]) by {
            if k > 0 {
                assert(s[k] == rest[k - 1]);
            }
        }
    } else {
        assert(s.skip(0) =~= s);
    }
}

proof fn lemma_trim_end_shape(s: Seq<char>)
    ensures
        ({
            let b = trim_end(s).len() as int;
            &&& 0 <= b <= s.len()
            &&& trim_end(s) == s.take(b)
            &&& forall|k: int| b <= k < s.len() ==> is_white_space(#[trigger] s[k])
            &&& b > 0 ==> !is_white_space(s[b - 1])
        }),
    decreases s.len(),
{
    if s.len() > 0 && is_white_space(s.last()) {
        let rest = s.drop_last();
        lemma_trim_end_shape(rest);
        let b = trim_end(s).len() as int;
        assert(rest.take(b) =~= s.take(b));
        assert forall|k: int| b <= k < s.len() implies is_white_space(#[trigger] s[k]) by {
            if k < s.len() - 1 {
                assert(s[k] == rest[k]);
            }
        }
    } else {
        assert(s.take(s.len() as int) =~= s);
    }
}

/// Trimming removes exactly the whitespace at both ends: the trimmed text is
/// the part of `s` between a run of leading and a run of trailing
/// whitespace, and it neither starts nor ends with whitespace.
pub proof fn lemma_trim_shape(s: Seq<char>)
    ensures
        exists|a: int, b: int|
            #![trigger s.subrange(a, b)]
            0 <= a <= b <= s.len() && trim(s) == s.subrange(a, b) && (forall|k: int|
                0 <= k < a ==> is_white_space(#[trigger] s[k])) && (forall|k: int|
                b <= k < s.len() ==> is_white_space(#[trigger] s[k])),
        trim(s).len() > 0 ==> !is_white_space(trim(s)[0]) && !is_white_space(
            trim(s)[trim(s).len() - 1],
        ),
{
    let front = trim_start(s);
    lemma_trim_start_shape(s);
    lemma_trim_end_shape(front);
    let a = s.len() - front.len();
    let b = a + trim(s).len();
    assert(trim(s) =~= s.subrange(a, b));
    assert forall|k: int| b <= k < s.len() implies is_white_space(#[trigger] s[k]) by {
        assert(s[k] == front[k - a]);
    }
    if trim(s).len() > 0 {
        assert(trim(s)[0] == front[0]);
    }
}

/// The value of a string of decimal digits.
pub open spec fn digits_value(s: Seq<char>) -> int
    decreases s.len(),
{
    if s.len() == 0 {
        0
    } else {
        digits_value(s.drop_last()) * 10 + (s.last() as int - 48)
    }
}

/// A number written in decimal is made of digits, starts with a digit other
/// than zero unless the number is zero, and reads back as the number.
pub proof fn lemma_decimal_value(n: nat)
    ensures
        decimal(n).len() > 0,
        forall|k: int| 0 <= k < decimal(n).len() ==> is_digit(#[trigger] decimal(n)[k]),
        n > 0 ==> decimal(n)[0] != '0',
        digits_value(decimal(n)) == n,
    decreases n,
{
    if n >= 10 {
        let high = n / 10;
        let low = n % 10;
        lemma_decimal_value(high);
        let d = decimal(n);
        assert(d.drop_last() =~= decimal(high));
        assert(n == high * 10 + low) by (nonlinear_arith)
            requires
                high == n / 10,
                low == n % 10,
        ;
        assert forall|k: int| 0 <= k < d.len() implies is_digit(#[trigger] d[k]) by {
            if k < d.len() - 1 {
                assert(d[k] == decimal(high)[k]);
            }
        }
        assert(d[0] == decimal(high)[0]);
        assert(high > 0);
        assert(d.last() == digit_char(low as int));
        assert(digit_char(low as int) as int == 48 + low);
        assert(digits_value(d) == digits_value(decimal(high)) * 10 + low);
    } else {
        assert(decimal(n).drop_last() =~= Seq::<char>::empty());
        assert(digit_char(n as int) as int == 48 + n);
        assert(digits_value(decimal(n).drop_last()) == 0);
    }
}

} // verus!
