//! Colours on the command line.
use crate::error::RgbError;
use crate::model::Rgb;
use crate::text::{chars_of, hex_value, read_hex_digit, trim, trimmed};
use vstd::prelude::*;
use vstd::string::StrSliceExecFns;
use vstd::utf8::*;

verus! {

/// `s` without the hash signs that it starts with.
pub open spec fn without_hashes(s: Seq<char>) -> Seq<char>
    decreases s.len(),
{
    if s.len() > 0 && s[0] == '#' {
        without_hashes(s.drop_first())
    } else {
        s
    }
}

/// The part of a colour that holds its digits.
pub open spec fn rgb_digits(value: Seq<char>) -> Seq<char> {
    without_hashes(trimmed(value))
}

/// The number that two characters make: two hexadecimal digits, or a plus sign
/// and one.
pub open spec fn pair_value(a: char, b: char) -> Option<int> {
    match (hex_value(a), hex_value(b)) {
        (Some(high), Some(low)) => Some(16 * high + low),
        (None, Some(low)) if a == '+' => Some(low),
        _ => None,
    }
}

/// The colour that three pairs make.
pub open spec fn rgb_of(digits: Seq<char>) -> Option<Rgb> {
    if digits.len() != 6 {
        None
    } else {
        match (
            pair_value(digits[0], digits[1]),
            pair_value(digits[2], digits[3]),
            pair_value(digits[4], digits[5]),
        ) {
            (Some(r), Some(g), Some(b)) => Some(Rgb(r as u8, g as u8, b as u8)),
            _ => None,
        }
    }
}

/// The colour that a text stands for: six bytes, which make three pairs.
pub open spec fn rgb_read(value: Seq<char>) -> Result<Rgb, RgbError> {
    if encode_utf8(rgb_digits(value)).len() != 6 {
        Err(RgbError::Length)
    } else {
        match rgb_of(rgb_digits(value)) {
            Some(rgb) => Ok(rgb),
            None => Err(RgbError::Digit),
        }
    }
}

/// Whether cutting six bytes into pairs, as far as the pairs before are
/// numbers, cuts through a character.
pub open spec fn rgb_cuts(value: Seq<char>) -> bool {
    let digits = rgb_digits(value);
    let bytes = encode_utf8(digits);
    bytes.len() == 6 && (!is_char_boundary(bytes, 2) || (digits.len() >= 2 && pair_value(
        digits[0],
        digits[1],
    ) is Some && !is_char_boundary(bytes, 4)))
}

fn digits_of(value: &str) -> (r: &str)
    ensures
        r@ == rgb_digits(value@),
{
    let text = trim(value);
    let chars = chars_of(text);
    let mut start: usize = 0;
    assert(text@.skip(0) == text@);
    while start < chars.len() && chars[start] == '#'
        invariant
            chars@ == text@,
            start <= chars@.len(),
            without_hashes(text@.skip(start as int)) == without_hashes(text@),
        decreases chars@.len() - start,
    {
        assert(text@.skip(start as int).drop_first() == text@.skip(start + 1));
        start = start + 1;
    }
    let r = text.substring_char(start, chars.len());
    assert(r@ == text@.skip(start as int));
    r
}

fn read_pair(a: char, b: char) -> (r: Option<u8>)
    ensures
        match r {
            Some(n) => pair_value(a, b) == Some(n as int),
            None => pair_value(a, b) is None,
        },
{
    match (read_hex_digit(a), read_hex_digit(b)) {
        (Some(high), Some(low)) => Some(16 * high + low),
        (None, Some(low)) if a == '+' => Some(low),
        _ => None,
    }
}

fn on_boundary(bytes: &[u8], index: usize, text: Ghost<Seq<char>>) -> (r: bool)
    requires
        bytes@ == encode_utf8(text@),
        index < bytes@.len(),
    ensures
        r == is_char_boundary(bytes@, index as int),
{
    proof {
        encode_utf8_valid_utf8(text@);
        is_char_boundary_iff_not_is_continuation_byte(bytes@, index as int);
    }
    let b: u8 = bytes[index];
    b < 0x80 || b > 0xbf
}

/// Tells whether a text has six bytes for its digits that cannot be cut into
/// pairs because a cut would lie inside a character.
pub fn rgb_cuts_character(value: &str) -> (r: bool)
    ensures
        r == rgb_cuts(value@),
{
    let digits = digits_of(value);
    let bytes = digits.as_bytes();
    if bytes.len() != 6 {
        return false;
    }
    if !on_boundary(bytes, 2, Ghost(digits@)) {
        return true;
    }
    let chars = chars_of(digits);
    chars.len() >= 2 && read_pair(chars[0], chars[1]).is_some() && !on_boundary(
        bytes,
        4,
        Ghost(digits@),
    )
}

/// Reads a colour such as `#12abef`. White space around it and any number of
/// hash signs before it do not count.
pub fn parse_rgb(value: &str) -> (r: Result<Rgb, RgbError>)
    requires
        !rgb_cuts(value@),
    ensures
        r == rgb_read(value@),
{
    let digits = digits_of(value);
    if digits.as_bytes().len() != 6 {
        return Err(RgbError::Length);
    }
    let chars = chars_of(digits);
    if chars.len() != 6 {
        return Err(RgbError::Digit);
    }
    match (
        read_pair(chars[0], chars[1]),
        read_pair(chars[2], chars[3]),
        read_pair(chars[4], chars[5]),
    ) {
        (Some(r), Some(g), Some(b)) => Ok(Rgb(r, g, b)),
        _ => Err(RgbError::Digit),
    }
}

/// The digits of a colour are what is left of its text without the white space
/// around it and without the hash signs that it starts with.
pub proof fn law_hash_signs_do_not_count(value: Seq<char>) -> (k: int)
    ensures
        0 <= k <= trimmed(value).len(),
        rgb_digits(value) == trimmed(value).skip(k),
        forall|i: int| 0 <= i < k ==> (#[trigger] trimmed(value)[i]) == '#',
        k < trimmed(value).len() ==> trimmed(value)[k] != '#',
{
    lemma_hashes(trimmed(value))
}

proof fn lemma_hashes(s: Seq<char>) -> (k: int)
    ensures
        0 <= k <= s.len(),
        without_hashes(s) == s.skip(k),
        forall|i: int| 0 <= i < k ==> (#[trigger] s[i]) == '#',
        k < s.len() ==> s[k] != '#',
    decreases s.len(),
{
    if s.len() > 0 && s[0] == '#' {
        let rest = s.drop_first();
        let k = lemma_hashes(rest);
        assert(rest.skip(k) == s.skip(k + 1));
        assert forall|i: int| 0 <= i < k + 1 implies (#[trigger] s[i]) == '#' by {
            if i > 0 {
                assert(rest[i - 1] == s[i]);
            }
        }
        k + 1
    } else {
        assert(s.skip(0) == s);
        0
    }
}

/// Six digits make a colour of three numbers, two digits for each, high digit first;
/// other texts are wrong in their length or in a digit.
pub proof fn law_colors_are_three_pairs(value: Seq<char>)
    ensures
        ({
            let d = rgb_digits(value);
            &&& rgb_read(value) == Err::<Rgb, RgbError>(RgbError::Length) <==> encode_utf8(d).len()
                != 6
            &&& rgb_read(value) matches Ok(rgb) ==> d.len() == 6 && pair_value(d[0], d[1]) == Some(
                rgb.0 as int,
            ) && pair_value(d[2], d[3]) == Some(rgb.1 as int) && pair_value(d[4], d[5]) == Some(
                rgb.2 as int,
            )
            &&& encode_utf8(d).len() == 6 && d.len() == 6 && (forall|i: int|
                0 <= i < 6 ==> hex_value(#[trigger] d[i]) is Some) ==> rgb_read(value) is Ok
        }),
{
    let d = rgb_digits(value);
    if d.len() == 6 {
        assert forall|i: int| 0 <= i < 6 && hex_value(#[trigger] d[i]) is Some implies 0
            <= hex_value(d[i])->Some_0 < 16 by {}
        assert(hex_value(d[0]) == hex_value(d[0]));
        assert(hex_value(d[1]) == hex_value(d[1]));
        assert(hex_value(d[2]) == hex_value(d[2]));
        assert(hex_value(d[3]) == hex_value(d[3]));
        assert(hex_value(d[4]) == hex_value(d[4]));
        assert(hex_value(d[5]) == hex_value(d[5]));
    }
}

/// Two hexadecimal digits count sixteen for the first and one for the second; a plus
/// sign may stand in the place of the first.
pub proof fn law_pairs_are_hexadecimal(a: char, b: char)
    ensures
        hex_value(a) is Some && hex_value(b) is Some ==> pair_value(a, b) == Some(
            16 * hex_value(a)->Some_0 + hex_value(b)->Some_0,
        ),
        pair_value('+', b) == hex_value(b),
        hex_value(b) is None ==> pair_value(a, b) is None,
        hex_value(a) is None && a != '+' ==> pair_value(a, b) is None,
        '0' <= a <= '9' ==> hex_value(a) == Some(a as int - '0' as int),
        'a' <= a <= 'f' ==> hex_value(a) == Some(a as int - 'a' as int + 10),
        'A' <= a <= 'F' ==> hex_value(a) == Some(a as int - 'A' as int + 10),
        !('0' <= a <= '9' || 'a' <= a <= 'f' || 'A' <= a <= 'F') ==> hex_value(a) is None,
{
}

} // verus!
