//! Character classes of the tokenizer.
use vstd::prelude::*;
use vstd::utf8::encode_scalar;

verus! {

/// Whether `c` has the Unicode property `White_Space`: whether it is one
/// of the 25 characters that the Unicode Character Database lists under
/// that name.
pub open spec fn is_whitespace(c: char) -> bool {
    let n = c as u32;
    ||| 0x0009 <= n <= 0x000D
    ||| n == 0x0020
    ||| n == 0x0085
    ||| n == 0x00A0
    ||| n == 0x1680
    ||| 0x2000 <= n <= 0x200A
    ||| n == 0x2028
    ||| n == 0x2029
    ||| n == 0x202F
    ||| n == 0x205F
    ||| n == 0x3000
}

/// Whether `c` is one of the ASCII punctuation characters.
pub open spec fn is_ascii_punctuation(c: char) -> bool {
    let n = c as u32;
    ||| 0x21 <= n <= 0x2F
    ||| 0x3A <= n <= 0x40
    ||| 0x5B <= n <= 0x60
    ||| 0x7B <= n <= 0x7E
}

/// `char::is_whitespace` is documented to return whether the character
/// has the property `White_Space` of the Unicode Character Database; the
/// contract spells the characters of that property out.
pub assume_specification[ char::is_whitespace ](c: char) -> (b: bool)
    ensures
        b == is_whitespace(c),
;

/// `char::is_ascii_punctuation` holds exactly on the four ASCII ranges
/// `!`..=`/`, `:`..=`@`, `[`..=`` ` `` and `{`..=`~`.
pub assume_specification[ char::is_ascii_punctuation ](c: &char) -> (b: bool)
    ensures
        b == is_ascii_punctuation(*c),
;

/// `char::len_utf8` is the number of bytes of the character's UTF-8 encoding.
pub assume_specification[ char::len_utf8 ](c: char) -> (n: usize)
    ensures
        n == encode_scalar(c as u32).len(),
;

/// Characters that belong to a punctuation run: ASCII punctuation and
/// whitespace. Every other character belongs to a word.
pub open spec fn is_separator(c: char) -> bool {
    is_ascii_punctuation(c) || is_whitespace(c)
}

/// Decides [`is_separator`].
pub fn separates(c: char) -> (b: bool)
    ensures
        b == is_separator(c),
{
    c.is_ascii_punctuation() || c.is_whitespace()
}

} // verus!
