//! The ways in which Lua source text can be malformed.

use vstd::prelude::*;
use vstd::string::*;

verus! {

#[derive(Debug, PartialEq, Eq, Structural)]
pub enum LexerError {
    UnclosedLongComment,
    InvalidStringuEscapeMissingOpenBrace,
    InvalidStringuEscapeMissingClosingBrace,
    InvalidStringuEscapeInvalidChar(u8),
    InvalidStringuEscapeNoDigits,
    InvalidStringuEscapeBeyond0x10FFFF,
    InvalidStringxEscapeUnfinished,
    InvalidStringxEscapeInvalidPossiblyTooLarge,
    InvalidStringDecimalEscapeBeyondu8,
    InvalidStringEscape,
    UnclosedShortString,
    UnclosedLongString,
    DecimalNumericConstantNeedsIntOrFracPart,
    HexNumericConstantNeedsIntOrFracPart,
    HexNumericConstantMalformedExponent,
    DecimalNumericConstantMalformedExponent,
}

/// The decimal digit `d` as a character.
pub open spec fn digit_char(d: nat) -> char {
    if d == 0 {
        '0'
    } else if d == 1 {
        '1'
    } else if d == 2 {
        '2'
    } else if d == 3 {
        '3'
    } else if d == 4 {
        '4'
    } else if d == 5 {
        '5'
    } else if d == 6 {
        '6'
    } else if d == 7 {
        '7'
    } else if d == 8 {
        '8'
    } else {
        '9'
    }
}

/// The decimal numeral of `n`, without leading zeros.
pub open spec fn decimal_chars(n: nat) -> Seq<char>
    decreases n,
{
    if n < 10 {
        seq![digit_char(n)]
    } else {
        decimal_chars(n / 10) + seq![digit_char(n % 10)]
    }
}

/// The text that describes an error.
pub open spec fn error_message(e: LexerError) -> Seq<char> {
    match e {
        LexerError::UnclosedLongComment => "Unclosed long comment !"@,
        LexerError::InvalidStringuEscapeMissingOpenBrace => "Invalid \\u string escape: Missing opening brace !"@,
        LexerError::InvalidStringuEscapeMissingClosingBrace => "Invalid \\u string escape: Missing closing brace !"@,
        LexerError::InvalidStringuEscapeInvalidChar(b) => "Invalid \\u string escape: Invalid character (byte value: "@
            + decimal_chars(b as nat) + ") in escape sequence !"@,
        LexerError::InvalidStringuEscapeNoDigits => "Invalid \\u string escape: No digits in escape sequence ! (needed to specify codepoint)"@,
        LexerError::InvalidStringuEscapeBeyond0x10FFFF => "Invalid \\u string escape: Beyond Lua 5.3 0x10FFFF limit !"@,
        LexerError::InvalidStringxEscapeUnfinished => "Unfinished \\x escape sequence at end of string !"@,
        LexerError::InvalidStringxEscapeInvalidPossiblyTooLarge => "Invalid hex, maybe too large? in \\x escape sequence !"@,
        LexerError::DecimalNumericConstantNeedsIntOrFracPart => "Decimal numeric constant needs at least an integer or fractional part !"@,
        LexerError::HexNumericConstantNeedsIntOrFracPart => "Hex numeric constant needs integer part or fractional part!"@,
        LexerError::HexNumericConstantMalformedExponent => "Hex numeric constant has malformed exponent"@,
        LexerError::DecimalNumericConstantMalformedExponent => "Decimal numeric constant has malformed exponent"@,
        LexerError::InvalidStringDecimalEscapeBeyondu8 => "Invalid decimal string escape: Beyond 255 !"@,
        LexerError::InvalidStringEscape => "Unrecognized string escape !"@,
        LexerError::UnclosedShortString => "Unclosed short string !"@,
        LexerError::UnclosedLongString => "Unclosed long string !"@,
    }
}

/// The decimal digit `d` as a one-character string.
fn digit_str(d: u8) -> (r: &'static str)
    requires
        d < 10,
    ensures
        r@ == seq![digit_char(d as nat)],
{
    proof {
        reveal_strlit("0");
        reveal_strlit("1");
        reveal_strlit("2");
        reveal_strlit("3");
        reveal_strlit("4");
        reveal_strlit("5");
        reveal_strlit("6");
        reveal_strlit("7");
        reveal_strlit("8");
        reveal_strlit("9");
    }
    match d {
        0 => "0",
        1 => "1",
        2 => "2",
        3 => "3",
        4 => "4",
        5 => "5",
        6 => "6",
        7 => "7",
        8 => "8",
        _ => "9",
    }
}

/// Appends the decimal numeral of `b` to `s`.
fn push_decimal(s: &mut String, b: u8)
    ensures
        final(s)@ == old(s)@ + decimal_chars(b as nat),
{
    if b >= 100 {
        s.append(digit_str(b / 100));
        s.append(digit_str(b / 10 % 10));
        s.append(digit_str(b % 10));
        proof {
            let n = b as nat;
            assert((n / 10) / 10 == n / 100);
            assert(decimal_chars(n / 100) == seq![digit_char(n / 100)]);
            assert(decimal_chars(n / 10) == decimal_chars(n / 100) + seq![digit_char((n / 10) % 10)]);
            assert(decimal_chars(n) == decimal_chars(n / 10) + seq![digit_char(n % 10)]);
            assert(s@ =~= old(s)@ + decimal_chars(n));
        }
    } else if b >= 10 {
        s.append(digit_str(b / 10));
        s.append(digit_str(b % 10));
        proof {
            let n = b as nat;
            assert(decimal_chars(n / 10) == seq![digit_char(n / 10)]);
            assert(decimal_chars(n) == decimal_chars(n / 10) + seq![digit_char(n % 10)]);
            assert(s@ =~= old(s)@ + decimal_chars(n));
        }
    } else {
        s.append(digit_str(b));
        assert(s@ =~= old(s)@ + decimal_chars(b as nat));
    }
}

impl LexerError {
    /// The text that describes the error.
    pub fn message(&self) -> (r: String)
        ensures
            r@ == error_message(*self),
    {
        match self {
            LexerError::UnclosedLongComment => String::from_str("Unclosed long comment !"),
            LexerError::InvalidStringuEscapeMissingOpenBrace => String::from_str("Invalid \\u string escape: Missing opening brace !"),
            LexerError::InvalidStringuEscapeMissingClosingBrace => String::from_str("Invalid \\u string escape: Missing closing brace !"),
            LexerError::InvalidStringuEscapeInvalidChar(b) => {
                let mut s = String::from_str("Invalid \\u string escape: Invalid character (byte value: ");
                push_decimal(&mut s, *b);
                s.append(") in escape sequence !");
                s
            },
            LexerError::InvalidStringuEscapeNoDigits => String::from_str("Invalid \\u string escape: No digits in escape sequence ! (needed to specify codepoint)"),
            LexerError::InvalidStringuEscapeBeyond0x10FFFF => String::from_str("Invalid \\u string escape: Beyond Lua 5.3 0x10FFFF limit !"),
            LexerError::InvalidStringxEscapeUnfinished => String::from_str("Unfinished \\x escape sequence at end of string !"),
            LexerError::InvalidStringxEscapeInvalidPossiblyTooLarge => String::from_str("Invalid hex, maybe too large? in \\x escape sequence !"),
            LexerError::DecimalNumericConstantNeedsIntOrFracPart => String::from_str("Decimal numeric constant needs at least an integer or fractional part !"),
            LexerError::HexNumericConstantNeedsIntOrFracPart => String::from_str("Hex numeric constant needs integer part or fractional part!"),
            LexerError::HexNumericConstantMalformedExponent => String::from_str("Hex numeric constant has malformed exponent"),
            LexerError::DecimalNumericConstantMalformedExponent => String::from_str("Decimal numeric constant has malformed exponent"),
            LexerError::InvalidStringDecimalEscapeBeyondu8 => String::from_str("Invalid decimal string escape: Beyond 255 !"),
            LexerError::InvalidStringEscape => String::from_str("Unrecognized string escape !"),
            LexerError::UnclosedShortString => String::from_str("Unclosed short string !"),
            LexerError::UnclosedLongString => String::from_str("Unclosed long string !"),
        }
    }
}

/// The decimal numeral of a byte has 1 to 3 digits, and tells the byte.
proof fn lemma_decimal_chars(x: u8, y: u8)
    ensures
        1 <= decimal_chars(x as nat).len() <= 3,
        decimal_chars(x as nat) == decimal_chars(y as nat) ==> x == y,
{
    let n = x as nat;
    let m = y as nat;
    assert(n / 10 / 10 == n / 100);
    assert(m / 10 / 10 == m / 100);
    if n >= 10 {
        assert(decimal_chars(n) == decimal_chars(n / 10) + seq![digit_char(n % 10)]);
    }
    if n >= 100 {
        assert(decimal_chars(n / 10) == decimal_chars(n / 100) + seq![digit_char((n / 10) % 10)]);
    }
    if m >= 10 {
        assert(decimal_chars(m) == decimal_chars(m / 10) + seq![digit_char(m % 10)]);
    }
    if m >= 100 {
        assert(decimal_chars(m / 10) == decimal_chars(m / 100) + seq![digit_char((m / 10) % 10)]);
    }
    if decimal_chars(n) == decimal_chars(m) {
        let d = decimal_chars(n);
        if n < 10 {
            assert(d[0] == digit_char(n));
            assert(d[0] == digit_char(m));
        } else if n < 100 {
            assert(d[0] == digit_char(n / 10) && d[1] == digit_char(n % 10));
            assert(d[0] == digit_char(m / 10) && d[1] == digit_char(m % 10));
        } else {
            assert(d[0] == digit_char(n / 100) && d[1] == digit_char((n / 10) % 10) && d[2]
                == digit_char(n % 10));
            assert(d[0] == digit_char(m / 100) && d[1] == digit_char((m / 10) % 10) && d[2]
                == digit_char(m % 10));
        }
    }
}

/// Different errors are described by different texts.
pub proof fn law_messages_distinct(a: LexerError, b: LexerError)
    requires
        a != b,
    ensures
        error_message(a) != error_message(b),
{
    reveal_strlit("Unclosed long comment !");
    reveal_strlit("Invalid \\u string escape: Missing opening brace !");
    reveal_strlit("Invalid \\u string escape: Missing closing brace !");
    reveal_strlit("Invalid \\u string escape: Invalid character (byte value: ");
    reveal_strlit(") in escape sequence !");
    reveal_strlit("Invalid \\u string escape: No digits in escape sequence ! (needed to specify codepoint)");
    reveal_strlit("Invalid \\u string escape: Beyond Lua 5.3 0x10FFFF limit !");
    reveal_strlit("Unfinished \\x escape sequence at end of string !");
    reveal_strlit("Invalid hex, maybe too large? in \\x escape sequence !");
    reveal_strlit("Decimal numeric constant needs at least an integer or fractional part !");
    reveal_strlit("Hex numeric constant needs integer part or fractional part!");
    reveal_strlit("Hex numeric constant has malformed exponent");
    reveal_strlit("Decimal numeric constant has malformed exponent");
    reveal_strlit("Invalid decimal string escape: Beyond 255 !");
    reveal_strlit("Unrecognized string escape !");
    reveal_strlit("Unclosed short string !");
    reveal_strlit("Unclosed long string !");
    let p = "Invalid \\u string escape: Invalid character (byte value: "@;
    let q = ") in escape sequence !"@;
    match (a, b) {
        (LexerError::InvalidStringuEscapeInvalidChar(x), LexerError::InvalidStringuEscapeInvalidChar(y)) => {
            lemma_decimal_chars(x, y);
            lemma_decimal_chars(y, x);
            if error_message(a) == error_message(b) {
                let dx = decimal_chars(x as nat);
                let dy = decimal_chars(y as nat);
                assert((p + dx + q).len() == (p + dy + q).len());
                assert(dx =~= (p + dx + q).subrange(p.len() as int, p.len() + dx.len() as int));
                assert(dy =~= (p + dy + q).subrange(p.len() as int, p.len() + dy.len() as int));
                assert(dx == dy);
                assert(x == y);
            }
        },
        (LexerError::InvalidStringuEscapeInvalidChar(x), _) => {
            lemma_decimal_chars(x, x);
            assert(error_message(a).len() != error_message(b).len());
        },
        (_, LexerError::InvalidStringuEscapeInvalidChar(y)) => {
            lemma_decimal_chars(y, y);
            assert(error_message(a).len() != error_message(b).len());
        },
        (LexerError::InvalidStringuEscapeMissingOpenBrace, LexerError::InvalidStringuEscapeMissingClosingBrace) => {
            assert(error_message(a)[34] != error_message(b)[34]);
        },
        (LexerError::InvalidStringuEscapeMissingClosingBrace, LexerError::InvalidStringuEscapeMissingOpenBrace) => {
            assert(error_message(a)[34] != error_message(b)[34]);
        },
        (LexerError::HexNumericConstantMalformedExponent, LexerError::InvalidStringDecimalEscapeBeyondu8) => {
            assert(error_message(a)[0] != error_message(b)[0]);
        },
        (LexerError::InvalidStringDecimalEscapeBeyondu8, LexerError::HexNumericConstantMalformedExponent) => {
            assert(error_message(a)[0] != error_message(b)[0]);
        },
        (LexerError::UnclosedLongComment, LexerError::UnclosedShortString) => {
            assert(error_message(a)[9] != error_message(b)[9]);
        },
        (LexerError::UnclosedShortString, LexerError::UnclosedLongComment) => {
            assert(error_message(a)[9] != error_message(b)[9]);
        },
        _ => {
            assert(error_message(a).len() != error_message(b).len());
        },
    }
}

} // verus!
