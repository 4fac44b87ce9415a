//! Character-level predicates and text screening helpers.
//!
//! The boundary rules of the annotation engine and the entity/text filters
//! are all defined over individual characters.  The character classes used
//! by the library are fixed here, spelled out in full, so that every
//! contract that mentions them is exact.

use vstd::prelude::*;

verus! {

/// The Unicode `White_Space` code points.
pub open spec fn is_space_char(c: char) -> bool {
    let u = c as u32;
    ||| u == 0x09
    ||| u == 0x0A
    ||| u == 0x0B
    ||| u == 0x0C
    ||| u == 0x0D
    ||| u == 0x20
    ||| u == 0x85
    ||| u == 0xA0
    ||| u == 0x1680
    ||| (0x2000 <= u && u <= 0x200A)
    ||| u == 0x2028
    ||| u == 0x2029
    ||| u == 0x202F
    ||| u == 0x205F
    ||| u == 0x3000
}

/// The ASCII punctuation characters `!` through `/`, `:` through `@`,
/// `[` through `` ` `` and `{` through `~`.
pub open spec fn is_ascii_punct_char(c: char) -> bool {
    let u = c as u32;
    ||| (0x21 <= u && u <= 0x2F)
    ||| (0x3A <= u && u <= 0x40)
    ||| (0x5B <= u && u <= 0x60)
    ||| (0x7B <= u && u <= 0x7E)
}

/// The ASCII digits `0` through `9`.
pub open spec fn is_ascii_digit_char(c: char) -> bool {
    0x30 <= c as u32 && c as u32 <= 0x39
}

/// Decides [`is_space_char`].
pub fn is_space(c: char) -> (r: bool)
    ensures
        r == is_space_char(c),
{
    let u = c as u32;
    u == 0x09 || u == 0x0A || u == 0x0B || u == 0x0C || u == 0x0D || u == 0x20 || u == 0x85 || u
        == 0xA0 || u == 0x1680 || (0x2000 <= u && u <= 0x200A) || u == 0x2028 || u == 0x2029 || u
        == 0x202F || u == 0x205F || u == 0x3000
}

/// Decides [`is_ascii_punct_char`].
pub fn is_ascii_punct(c: char) -> (r: bool)
    ensures
        r == is_ascii_punct_char(c),
{
    let u = c as u32;
    (0x21 <= u && u <= 0x2F) || (0x3A <= u && u <= 0x40) || (0x5B <= u && u <= 0x60) || (0x7B <= u
        && u <= 0x7E)
}

/// Decides [`is_ascii_digit_char`].
pub fn is_ascii_digit(c: char) -> (r: bool)
    ensures
        r == is_ascii_digit_char(c),
{
    let u = c as u32;
    0x30 <= u && u <= 0x39
}

/// Whether a character counts as alphanumeric for the text filters.
/// The Unicode `Alphabetic` and `Number` classes are far too large to spell
/// out, so the class is named here and decided by [`char_is_alphanumeric`].
pub uninterp spec fn char_alnum(c: char) -> bool;

/// Relies on `char::is_alphanumeric`: whether the character is in the
/// Unicode `Alphabetic` class or one of the `Nd`/`Nl`/`No` number classes.
/// The result depends on the character alone.
#[verifier::external_body]
pub fn char_is_alphanumeric(c: char) -> (r: bool)
    ensures
        r == char_alnum(c),
{
    c.is_alphanumeric()
}

/// The Unicode lowercase mapping of a character sequence, as
/// `str::to_lowercase` computes it.  The mapping is far too large to spell
/// out, so it is named here; [`to_lowercase`] is the only way to obtain it.
pub uninterp spec fn lower_of(s: Seq<char>) -> Seq<char>;

/// Relies on `str::to_lowercase`: the Unicode lowercase equivalent of the
/// string.  The result depends on the characters alone; every character
/// maps to at least one character, so emptiness is preserved both ways.
#[verifier::external_body]
pub fn to_lowercase(s: &str) -> (r: String)
    ensures
        r@ == lower_of(s@),
        s@.len() == 0 ==> r@.len() == 0,
        s@.len() > 0 ==> r@.len() > 0,
{
    s.to_lowercase()
}

/// Relies on `String::push`: appends exactly the given character.
#[verifier::external_body]
pub fn push_char(s: &mut String, c: char)
    ensures
        final (s)@ == old(s)@ + seq![c],
{
    s.push(c);
}

/// The characters of a string slice, as a vector.
pub fn chars_of(s: &str) -> (v: Vec<char>)
    ensures
        v@ == s@,
{
    let n = s.unicode_len();
    let mut v: Vec<char> = Vec::new();
    for i in 0..n
        invariant
            n == s@.len(),
            v@ == s@.take(i as int),
    {
        v.push(s.get_char(i));
        assert(v@ =~= s@.take(i + 1));
    }
    assert(v@ =~= s@);
    v
}

/// Whether the text is non-empty and made of alphanumeric characters only.
pub fn is_alphanumeric(text: &str) -> (r: bool)
    ensures
        r == (text@.len() > 0 && forall|i: int|
            0 <= i < text@.len() ==> char_alnum(#[trigger] text@[i])),
{
    let n = s_len(text);
    if n == 0 {
        return false;
    }
    for i in 0..n
        invariant
            n == text@.len(),
            forall|j: int| 0 <= j < i ==> char_alnum(#[trigger] text@[j]),
    {
        if !char_is_alphanumeric(text.get_char(i)) {
            return false;
        }
    }
    true
}

/// Whether the text contains at least one ASCII punctuation character.
pub fn contains_punctuation(text: &str) -> (r: bool)
    ensures
        r == exists|i: int| 0 <= i < text@.len() && is_ascii_punct_char(#[trigger] text@[i]),
{
    let n = s_len(text);
    for i in 0..n
        invariant
            n == text@.len(),
            forall|j: int| 0 <= j < i ==> !is_ascii_punct_char(#[trigger] text@[j]),
    {
        if is_ascii_punct(text.get_char(i)) {
            return true;
        }
    }
    false
}

/// Whether the text contains at least one ASCII digit.
pub fn contains_numbers(text: &str) -> (r: bool)
    ensures
        r == exists|i: int| 0 <= i < text@.len() && is_ascii_digit_char(#[trigger] text@[i]),
{
    let n = s_len(text);
    for i in 0..n
        invariant
            n == text@.len(),
            forall|j: int| 0 <= j < i ==> !is_ascii_digit_char(#[trigger] text@[j]),
    {
        if is_ascii_digit(text.get_char(i)) {
            return true;
        }
    }
    false
}

/// Whether the text contains at least one character from `special`.
pub fn contains_special_characters(text: &str, special: &Vec<char>) -> (r: bool)
    ensures
        r == exists|i: int| 0 <= i < text@.len() && special@.contains(#[trigger] text@[i]),
{
    let n = s_len(text);
    for i in 0..n
        invariant
            n == text@.len(),
            forall|j: int| 0 <= j < i ==> !special@.contains(#[trigger] text@[j]),
    {
        if char_in(special, text.get_char(i)) {
            return true;
        }
    }
    false
}

/// Whether `c` occurs in `v`.
pub fn char_in(v: &Vec<char>, c: char) -> (r: bool)
    ensures
        r == v@.contains(c),
{
    for i in 0..v.len()
        invariant
            forall|j: int| 0 <= j < i ==> v@[j] != c,
    {
        if v[i] == c {
            return true;
        }
    }
    false
}

/// The number of characters in a string slice.
pub fn s_len(s: &str) -> (n: usize)
    ensures
        n == s@.len(),
{
    s.unicode_len()
}

} // verus!
