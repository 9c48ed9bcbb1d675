//! Character classification and byte-offset accounting for the lexer.
//!
//! The lexer walks the source as a sequence of `char`s but reports token
//! spans as byte offsets into the UTF-8 text, so this module models both
//! the character classes the lexer distinguishes and the byte width of
//! each character.

use vstd::prelude::*;
use vstd::utf8::{encode_utf8, encode_scalar, char_is_scalar};

verus! {

/// The Unicode code points with the White_Space property; this is the set
/// of characters the lexer skips between tokens.
pub open spec fn is_ws(c: char) -> bool {
    let u = c as u32;
    ||| u == 0x09
    ||| u == 0x0A
    ||| u == 0x0B
    ||| u == 0x0C
    ||| u == 0x0D
    ||| u == 0x20
    ||| u == 0x85
    ||| u == 0xA0
    ||| u == 0x1680
    ||| (0x2000 <= u && u <= 0x200A)
    ||| u == 0x2028
    ||| u == 0x2029
    ||| u == 0x202F
    ||| u == 0x3000
    ||| u == 0x205F
}

/// Decides White_Space membership for a character.
pub fn ws_char(c: char) -> (r: bool)
    ensures
        r == is_ws(c),
{
    let u = c as u32;
    (0x09 <= u && u <= 0x0D) || u == 0x20 || u == 0x85 || u == 0xA0 || u == 0x1680 || (0x2000
        <= u && u <= 0x200A) || u == 0x2028 || u == 0x2029 || u == 0x202F || u == 0x205F || u
        == 0x3000
}

/// An ASCII decimal digit; a number literal is a run of these and `.`.
pub open spec fn is_digit(c: char) -> bool {
    0x30 <= (c as u32) && (c as u32) <= 0x39
}

/// Decides whether a character is an ASCII decimal digit.
pub fn digit_char(c: char) -> (r: bool)
    ensures
        r == is_digit(c),
{
    let u = c as u32;
    0x30 <= u && u <= 0x39
}

/// An ASCII letter.
pub open spec fn is_ascii_letter(c: char) -> bool {
    let u = c as u32;
    (0x41 <= u && u <= 0x5A) || (0x61 <= u && u <= 0x7A)
}

/// Whether a character beyond ASCII has the Unicode Alphabetic property;
/// the library states nothing about which those characters are.
pub uninterp spec fn alpha_ext(c: char) -> bool;

/// Whether a character beyond ASCII is Unicode-alphanumeric; the library
/// states nothing about which those characters are.
pub uninterp spec fn alnum_ext(c: char) -> bool;

/// A character that may begin an identifier (aside from `_`): within
/// ASCII exactly the letters, beyond ASCII the Alphabetic characters.
pub open spec fn is_alpha(c: char) -> bool {
    if (c as u32) < 0x80 {
        is_ascii_letter(c)
    } else {
        alpha_ext(c)
    }
}

/// A character that may continue an identifier (aside from `_`).
pub open spec fn is_alnum(c: char) -> bool {
    if (c as u32) < 0x80 {
        is_ascii_letter(c) || is_digit(c)
    } else {
        alnum_ext(c)
    }
}

/// Relies on char::is_alphabetic: within ASCII exactly the letters are
/// alphabetic; beyond ASCII the result is only given a name.
#[verifier::external_body]
pub fn alpha_char(c: char) -> (r: bool)
    ensures
        r == is_alpha(c),
        (c as u32) >= 0x80 ==> r == alpha_ext(c),
{
    c.is_alphabetic()
}

/// Relies on char::is_alphanumeric: within ASCII exactly the letters and
/// digits are alphanumeric; beyond ASCII the result is only given a name.
#[verifier::external_body]
pub fn alnum_char(c: char) -> (r: bool)
    ensures
        r == is_alnum(c),
        (c as u32) >= 0x80 ==> r == alnum_ext(c),
{
    c.is_alphanumeric()
}

/// Relies on String::push: it appends exactly the given character.
pub assume_specification[ std::string::String::push ](s: &mut String, c: char)
    ensures
        final(s)@ == old(s)@.push(c),
;

/// The number of bytes in the UTF-8 encoding of a character.
pub open spec fn utf8_len(c: char) -> int {
    let u = c as u32;
    if u < 0x80 {
        1
    } else if u < 0x800 {
        2
    } else if u < 0x10000 {
        3
    } else {
        4
    }
}

/// Computes the UTF-8 width of a character from its code point.
pub fn utf8_len_char(c: char) -> (n: usize)
    ensures
        n == utf8_len(c),
        1 <= n <= 4,
{
    let u = c as u32;
    if u < 0x80 {
        1
    } else if u < 0x800 {
        2
    } else if u < 0x10000 {
        3
    } else {
        4
    }
}

/// The length in bytes of the UTF-8 encoding of a character sequence.
pub open spec fn byte_len(s: Seq<char>) -> int
    decreases s.len(),
{
    if s.len() == 0 {
        0
    } else {
        utf8_len(s[0]) + byte_len(s.drop_first())
    }
}

/// The byte offset of character position `i` in `s`: the byte length of
/// the characters before it.
pub open spec fn byte_index(s: Seq<char>, i: int) -> int {
    byte_len(s.take(i))
}

pub proof fn lemma_byte_len_bounds(s: Seq<char>)
    ensures
        s.len() <= byte_len(s) <= 4 * s.len(),
    decreases s.len(),
{
    if s.len() > 0 {
        lemma_byte_len_bounds(s.drop_first());
    }
}

pub proof fn lemma_byte_len_append(s1: Seq<char>, s2: Seq<char>)
    ensures
        byte_len(s1 + s2) == byte_len(s1) + byte_len(s2),
    decreases s1.len(),
{
    if s1.len() == 0 {
        assert(s1 + s2 =~= s2);
    } else {
        assert((s1 + s2).drop_first() =~= s1.drop_first() + s2);
        lemma_byte_len_append(s1.drop_first(), s2);
    }
}

/// Stepping one character forward advances the byte offset by that
/// character's UTF-8 width.
pub proof fn lemma_byte_index_step(s: Seq<char>, i: int)
    requires
        0 <= i < s.len(),
    ensures
        byte_index(s, i + 1) == byte_index(s, i) + utf8_len(s[i]),
{
    assert(s.take(i + 1) =~= s.take(i) + seq![s[i]]);
    lemma_byte_len_append(s.take(i), seq![s[i]]);
    assert(byte_len(seq![s[i]]) == utf8_len(s[i])) by {
        let single = seq![s[i]];
        assert(single.len() == 1 && single[0] == s[i]);
        assert(single.drop_first() =~= Seq::<char>::empty());
        assert(byte_len(Seq::<char>::empty()) == 0);
    }
}

/// Byte offsets are monotone in the character position.
pub proof fn lemma_byte_index_mono(s: Seq<char>, i: int, j: int)
    requires
        0 <= i <= j <= s.len(),
    ensures
        byte_index(s, i) <= byte_index(s, j),
        byte_index(s, i) + (j - i) <= byte_index(s, j),
{
    assert(s.take(j) =~= s.take(i) + s.take(j).subrange(i, j));
    lemma_byte_len_append(s.take(i), s.take(j).subrange(i, j));
    lemma_byte_len_bounds(s.take(j).subrange(i, j));
}

/// The byte length of a character sequence agrees with the length of its
/// UTF-8 encoding as vstd models it; this ties spans to `str::len`.
pub proof fn lemma_byte_len_is_encode_len(s: Seq<char>)
    ensures
        byte_len(s) == encode_utf8(s).len(),
    decreases s.len(),
{
    if s.len() > 0 {
        char_is_scalar(s[0]);
        assert(encode_scalar(s[0] as u32).len() == utf8_len(s[0]));
        lemma_byte_len_is_encode_len(s.drop_first());
    }
}

/// Compares two string slices character by character.
#[verifier::loop_isolation(false)]
pub fn str_eq(a: &str, b: &str) -> (r: bool)
    ensures
        r == (a@ == b@),
{
    let na = a.unicode_len();
    let nb = b.unicode_len();
    if na != nb {
        proof {
            assert(a@ != b@) by {
                if a@ == b@ {
                    assert(a@.len() == b@.len());
                }
            }
        }
        return false;
    }
    let mut i: usize = 0;
    while i < na
        invariant
            na == a@.len() && nb == b@.len() && na == nb,
            0 <= i <= na,
            forall|j: int| 0 <= j < i ==> a@[j] == b@[j],
        decreases na - i,
    {
        if a.get_char(i) != b.get_char(i) {
            proof {
                assert(a@[i as int] != b@[i as int]);
            }
            return false;
        }
        i = i + 1;
    }
    proof {
        assert(a@ =~= b@);
    }
    true
}

} // verus!
