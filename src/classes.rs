use vstd::prelude::*;

verus! {

/// ASCII codes of the punctuation that the grammar names.
pub const PLUS: u8 = 43;
pub const SLASH: u8 = 47;
pub const HYPHEN: u8 = 45;
pub const DOT: u8 = 46;
pub const EQUALS: u8 = 61;
pub const DQUOTE: u8 = 34;
pub const BACKSLASH: u8 = 92;

/// ALPHA: an ASCII letter of either case.
pub open spec fn alpha(b: u8) -> bool {
    (0x41 <= b && b <= 0x5a) || (0x61 <= b && b <= 0x7a)
}

/// DIGIT: an ASCII decimal digit.
pub open spec fn digit(b: u8) -> bool {
    0x30 <= b && b <= 0x39
}

/// Let-dig = ALPHA / DIGIT
pub open spec fn let_dig(b: u8) -> bool {
    alpha(b) || digit(b)
}

/// The punctuation that `atext` admits besides letters and digits.
pub open spec fn atext_special(b: u8) -> bool {
    // ! # $ % & ' * + - / = ? ^ _ ` { | } ~
    b == 33 || (35 <= b && b <= 39) || b == 42 || b == 43 || b == 45 || b == 47 || b == 61
        || b == 63 || (94 <= b && b <= 96) || (123 <= b && b <= 126)
}

/// atext = ALPHA / DIGIT / one of the specials above
pub open spec fn atext(b: u8) -> bool {
    alpha(b) || digit(b) || atext_special(b)
}

/// qtextSMTP = %d32-33 / %d35-91 / %d93-126
pub open spec fn qtext(b: u8) -> bool {
    (32 <= b && b <= 33) || (35 <= b && b <= 91) || (93 <= b && b <= 126)
}

/// The base64 alphabet: letters, digits, `+` and `/`.
pub open spec fn base64_char(b: u8) -> bool {
    alpha(b) || digit(b) || b == PLUS || b == SLASH
}

/// ALPHA, as an executable test.
pub fn is_alphabetic(byte: u8) -> (r: bool)
    ensures
        r == alpha(byte),
{
    (0x41 <= byte && byte <= 0x5a) || (0x61 <= byte && byte <= 0x7a)
}

/// DIGIT, as an executable test.
pub fn is_digit(byte: u8) -> (r: bool)
    ensures
        r == digit(byte),
{
    0x30 <= byte && byte <= 0x39
}

/// Printable US-ASCII characters not including specials; used for atoms.
pub fn is_atext(byte: u8) -> (r: bool)
    ensures
        r == atext(byte),
{
    is_alphabetic(byte) || is_digit(byte) || matches!(
        byte,
        33 | 35..=39 | 42 | 43 | 45 | 47 | 61 | 63 | 94..=96 | 123..=126
    )
}

/// Within a quoted string, any ASCII graphic or space is permitted without
/// backslash-quoting except double-quote and the backslash itself.
pub fn is_qtextSMTP(byte: u8) -> (r: bool)
    ensures
        r == qtext(byte),
{
    matches!(byte, 32..=33 | 35..=91 | 93..=126)
}

/// Let-dig = ALPHA / DIGIT
pub fn is_Let_dig(byte: u8) -> (r: bool)
    ensures
        r == let_dig(byte),
{
    is_alphabetic(byte) || is_digit(byte)
}

/// A byte of the base64 alphabet (padding excluded).
pub fn is_base64_char(byte: u8) -> (r: bool)
    ensures
        r == base64_char(byte),
{
    is_alphabetic(byte) || is_digit(byte) || byte == PLUS || byte == SLASH
}

} // verus!
