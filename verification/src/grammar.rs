//! The lexical grammar, as spec functions on the bytes of the text that is
//! left to lex.
//!
//! Each scanner looks at the front of the remaining bytes `b` and says
//! whether a token of its sort starts there, how many bytes it takes, and
//! what it denotes; or that the text is malformed in a way that stops the
//! lexer (an unclosed string, a numeral without digits, ...).

use vstd::prelude::*;
use vstd::utf8::*;

use crate::bytes::{
    digits_value, find_byte, in_class, is_digit, is_ident_start, run_len, white_space_prefix_len, ByteClass,
    lemma_find_byte, lemma_run_len_bounds, lemma_white_space_prefix_len,
};
use crate::keyword::keyword_of;
use crate::symbol::scan_symbol;
use crate::token::{KindView, Lexeme};

verus! {

/// What a scanner finds at the front of the remaining text.
pub enum Scan {
    /// No token of this sort starts here.
    NoMatch,
    /// A token of this kind, taking this many bytes.
    Match(KindView, nat),
    /// A token of this sort starts here but is malformed; the lexer stops.
    Fail,
}

// ----- identifiers and keywords -----

pub open spec fn scan_identifier(b: Seq<u8>) -> Scan {
    if b.len() > 0 && is_ident_start(b[0]) {
        let n = run_len(b, 0, ByteClass::IdentChar);
        Scan::Match(
            match keyword_of(b.take(n as int)) {
                Some(k) => KindView::Keyword(k),
                None => KindView::Identifier,
            },
            n,
        )
    } else {
        Scan::NoMatch
    }
}

// ----- decimal numerals -----

/// End of the integer digits.
pub open spec fn decimal_int_end(b: Seq<u8>) -> int {
    run_len(b, 0, ByteClass::Digit) as int
}

pub open spec fn decimal_has_point(b: Seq<u8>) -> bool {
    let i = decimal_int_end(b);
    i < b.len() && b[i] == '.' as u8
}

/// End of the fractional digits (the end of the integer digits when there
/// is no point).
pub open spec fn decimal_frac_end(b: Seq<u8>) -> int {
    let i = decimal_int_end(b);
    if decimal_has_point(b) {
        i + 1 + run_len(b, i + 1, ByteClass::Digit)
    } else {
        i
    }
}

pub open spec fn decimal_has_exponent(b: Seq<u8>) -> bool {
    let f = decimal_frac_end(b);
    f < b.len() && (b[f] == 'e' as u8 || b[f] == 'E' as u8)
}

/// Start of the exponent digits, after the exponent mark and its sign.
pub open spec fn decimal_exp_digits_start(b: Seq<u8>) -> int {
    let c = decimal_frac_end(b) + 1;
    if c < b.len() && (b[c] == '+' as u8 || b[c] == '-' as u8) {
        c + 1
    } else {
        c
    }
}

/// End of the exponent digits.
pub open spec fn decimal_exp_end(b: Seq<u8>) -> int {
    let d = decimal_exp_digits_start(b);
    d + run_len(b, d, ByteClass::Digit)
}

/// End of the numeral. After an exponent, the byte that ends the exponent
/// digits is taken too.
pub open spec fn decimal_end(b: Seq<u8>) -> int {
    if decimal_has_exponent(b) {
        let e = decimal_exp_end(b);
        if e < b.len() {
            e + 1
        } else {
            e
        }
    } else {
        decimal_frac_end(b)
    }
}

pub open spec fn decimal_int_digits(b: Seq<u8>) -> Seq<u8> {
    b.take(decimal_int_end(b))
}

pub open spec fn decimal_frac_digits(b: Seq<u8>) -> Seq<u8> {
    if decimal_has_point(b) {
        b.subrange(decimal_int_end(b) + 1, decimal_frac_end(b))
    } else {
        seq![]
    }
}

/// The exponent sign and digits.
pub open spec fn decimal_exp_text(b: Seq<u8>) -> Seq<u8> {
    if decimal_has_exponent(b) {
        b.subrange(decimal_frac_end(b) + 1, decimal_exp_end(b))
    } else {
        seq![]
    }
}

/// The exponent is a sign with no digits after it. A numeral with a point
/// and such an exponent has text that no float parser reads.
pub open spec fn decimal_exp_sign_only(b: Seq<u8>) -> bool {
    let e = decimal_exp_text(b);
    e.len() == 1 && (e[0] == '+' as u8 || e[0] == '-' as u8)
}

/// The normalized text of a decimal numeral with a point.
pub open spec fn decimal_float_text(i: Seq<u8>, f: Seq<u8>, e: Seq<u8>) -> Seq<u8> {
    (if i.len() > 0 {
        i
    } else {
        seq!['0' as u8]
    }) + (if f.len() > 0 {
        seq!['.' as u8] + f
    } else {
        seq!['0' as u8]
    }) + (if e.len() > 0 {
        seq!['e' as u8] + e
    } else {
        seq![]
    })
}

pub open spec fn scan_decimal(b: Seq<u8>) -> Scan {
    let i = decimal_int_digits(b);
    let f = decimal_frac_digits(b);
    let end = decimal_end(b);
    if i.len() == 0 && f.len() == 0 {
        Scan::Fail
    } else if !is_char_boundary(b, end) {
        Scan::Fail
    } else if !decimal_has_point(b) {
        let v = digits_value(i, false);
        if v > i64::MAX {
            Scan::Fail
        } else {
            Scan::Match(KindView::Integer(v as i64), end as nat)
        }
    } else if decimal_exp_sign_only(b) {
        Scan::Fail
    } else {
        Scan::Match(
            KindView::Float { hex: false, text: decimal_float_text(i, f, decimal_exp_text(b)) },
            end as nat,
        )
    }
}

// ----- hexadecimal numerals -----

pub open spec fn hex_int_end(b: Seq<u8>) -> int {
    2 + run_len(b, 2, ByteClass::HexDigit) as int
}

pub open spec fn hex_has_point(b: Seq<u8>) -> bool {
    let i = hex_int_end(b);
    i < b.len() && b[i] == '.' as u8
}

pub open spec fn hex_frac_end(b: Seq<u8>) -> int {
    let i = hex_int_end(b);
    if hex_has_point(b) {
        i + 1 + run_len(b, i + 1, ByteClass::HexDigit)
    } else {
        i
    }
}

pub open spec fn hex_has_exponent(b: Seq<u8>) -> bool {
    let f = hex_frac_end(b);
    f < b.len() && (b[f] == 'p' as u8 || b[f] == 'P' as u8)
}

pub open spec fn hex_exp_digits_start(b: Seq<u8>) -> int {
    let c = hex_frac_end(b) + 1;
    if c < b.len() && (b[c] == '-' as u8 || b[c] == '+' as u8) {
        c + 1
    } else {
        c
    }
}

pub open spec fn hex_exp_digit_count(b: Seq<u8>) -> nat {
    run_len(b, hex_exp_digits_start(b), ByteClass::Digit)
}

pub open spec fn hex_end(b: Seq<u8>) -> int {
    if hex_has_exponent(b) {
        hex_exp_digits_start(b) + hex_exp_digit_count(b)
    } else {
        hex_frac_end(b)
    }
}

pub open spec fn hex_int_digits(b: Seq<u8>) -> Seq<u8> {
    b.subrange(2, hex_int_end(b))
}

pub open spec fn hex_frac_digits(b: Seq<u8>) -> Seq<u8> {
    if hex_has_point(b) {
        b.subrange(hex_int_end(b) + 1, hex_frac_end(b))
    } else {
        seq![]
    }
}

pub open spec fn hex_exp_text(b: Seq<u8>) -> Seq<u8> {
    if hex_has_exponent(b) {
        b.subrange(hex_frac_end(b) + 1, hex_end(b))
    } else {
        seq![]
    }
}

/// The normalized text of a hexadecimal numeral with a point or an
/// exponent: `0x<int>.<frac>p<exp>`, each missing part written `0`.
pub open spec fn hex_float_text(i: Seq<u8>, f: Seq<u8>, e: Seq<u8>) -> Seq<u8> {
    seq!['0' as u8, 'x' as u8] + (if i.len() > 0 {
        i
    } else {
        seq!['0' as u8]
    }) + seq!['.' as u8] + (if f.len() > 0 {
        f
    } else {
        seq!['0' as u8]
    }) + seq!['p' as u8] + (if e.len() > 0 {
        e
    } else {
        seq!['0' as u8]
    })
}

pub open spec fn scan_hex(b: Seq<u8>) -> Scan {
    let i = hex_int_digits(b);
    let f = hex_frac_digits(b);
    let end = hex_end(b);
    if i.len() == 0 && f.len() == 0 {
        Scan::Fail
    } else if hex_has_exponent(b) && hex_exp_digit_count(b) == 0 {
        Scan::Fail
    } else if !hex_has_point(b) && !hex_has_exponent(b) {
        let v = digits_value(i, true);
        if v > i64::MAX {
            Scan::Fail
        } else {
            Scan::Match(KindView::Integer(v as i64), end as nat)
        }
    } else {
        Scan::Match(
            KindView::Float { hex: true, text: hex_float_text(i, f, hex_exp_text(b)) },
            end as nat,
        )
    }
}

pub open spec fn starts_hex(b: Seq<u8>) -> bool {
    b.len() >= 2 && b[0] == '0' as u8 && (b[1] == 'x' as u8 || b[1] == 'X' as u8)
}

pub open spec fn starts_decimal(b: Seq<u8>) -> bool {
    (b.len() >= 1 && is_digit(b[0])) || (b.len() >= 2 && b[0] == '.' as u8 && is_digit(b[1]))
}

pub open spec fn scan_numeric(b: Seq<u8>) -> Scan {
    if starts_hex(b) {
        scan_hex(b)
    } else if starts_decimal(b) {
        scan_decimal(b)
    } else {
        Scan::NoMatch
    }
}

// ----- strings -----

/// The number of backslashes just before index `j`.
pub open spec fn backslashes_before(b: Seq<u8>, j: int) -> nat
    decreases j,
{
    if 0 < j <= b.len() && b[j - 1] == '\\' as u8 {
        1 + backslashes_before(b, j - 1)
    } else {
        0
    }
}

/// The first quote `q` at or after `j` that an even number of backslashes
/// precedes.
pub open spec fn short_string_close(b: Seq<u8>, q: u8, j: int) -> Option<int>
    decreases b.len() - j,
{
    if 0 <= j < b.len() {
        if b[j] == q && backslashes_before(b, j) % 2 == 0 {
            Some(j)
        } else {
            short_string_close(b, q, j + 1)
        }
    } else {
        None
    }
}

pub open spec fn is_quote(c: u8) -> bool {
    c == '"' as u8 || c == '\'' as u8
}

/// A quoted string. The closing quote is searched from index 2 on.
pub open spec fn scan_short_string(b: Seq<u8>) -> Scan {
    if b.len() > 0 && is_quote(b[0]) {
        match short_string_close(b, b[0], 2) {
            Some(j) => Scan::Match(KindView::ShortString(b.subrange(1, j)), (j + 1) as nat),
            None => Scan::Fail,
        }
    } else {
        Scan::NoMatch
    }
}

/// The end (just past the last `]`) of the first closing long bracket of
/// level `level` at or after `i`: a `]`, `level` times `=`, and a `]`.
/// After a `]` and its `=`s that do not close, the search goes on after the
/// `=`s.
pub open spec fn long_bracket_close(b: Seq<u8>, i: int, level: nat) -> Option<int>
    decreases b.len() - i,
{
    if 0 <= i < b.len() {
        if b[i] == ']' as u8 {
            let c = i + 1;
            let k = run_len(b, c, ByteClass::Equals);
            let d = c + k;
            proof {
                lemma_run_len_bounds(b, c, ByteClass::Equals);
            }
            if k == level && d < b.len() && b[d] == ']' as u8 {
                Some(d + 1)
            } else {
                long_bracket_close(b, d, level)
            }
        } else {
            long_bracket_close(b, i + 1, level)
        }
    } else {
        None
    }
}

/// The level of the opening long bracket at the front of `b`, if there is
/// one: `[`, `level` times `=`, `[`.
pub open spec fn opening_long_bracket(b: Seq<u8>) -> Option<nat> {
    if b.len() > 0 && b[0] == '[' as u8 {
        let k = run_len(b, 1, ByteClass::Equals);
        if 1 + k < b.len() && b[1 + k as int] == '[' as u8 {
            Some(k)
        } else {
            None
        }
    } else {
        None
    }
}

/// A string between long brackets. Without a matching closing bracket there
/// is no such string here.
pub open spec fn scan_long_string(b: Seq<u8>) -> Scan {
    match opening_long_bracket(b) {
        Some(k) => match long_bracket_close(b, k + 2 as int, k) {
            Some(e) => Scan::Match(KindView::LongString(b.subrange(k + 2 as int, e - (k + 2))), e as nat),
            None => Scan::NoMatch,
        },
        None => Scan::NoMatch,
    }
}

/// The symbol at the front, as a scan.
pub open spec fn scan_symbol_token(b: Seq<u8>) -> Scan {
    match scan_symbol(b) {
        Some((s, n)) => Scan::Match(KindView::Symbol(s), n),
        None => Scan::NoMatch,
    }
}

/// The token at the front of `b`: the first of identifier or keyword,
/// numeral, quoted string, long string and symbol that matches.
pub open spec fn first_token(b: Seq<u8>) -> Scan {
    match scan_identifier(b) {
        Scan::NoMatch => match scan_numeric(b) {
            Scan::NoMatch => match scan_short_string(b) {
                Scan::NoMatch => match scan_long_string(b) {
                    Scan::NoMatch => scan_symbol_token(b),
                    s => s,
                },
                s => s,
            },
            s => s,
        },
        s => s,
    }
}

// ----- comments and white space -----

pub enum CommentScan {
    NotComment,
    /// A comment taking this many bytes (with the newline that ends a short
    /// comment).
    Skip(nat),
    /// A long comment without its closing bracket.
    Unclosed,
}

pub open spec fn starts_comment(b: Seq<u8>) -> bool {
    b.len() >= 2 && b[0] == '-' as u8 && b[1] == '-' as u8
}

/// The level of the long bracket that opens a long comment, if `--` is
/// followed by one.
pub open spec fn long_comment_level(b: Seq<u8>) -> Option<nat> {
    if 2 < b.len() && b[2] == '[' as u8 {
        let k = run_len(b, 3, ByteClass::Equals);
        if 3 + k < b.len() && b[3 + k as int] == '[' as u8 {
            Some(k)
        } else {
            None
        }
    } else {
        None
    }
}

pub open spec fn scan_comment(b: Seq<u8>) -> CommentScan {
    if !starts_comment(b) {
        CommentScan::NotComment
    } else {
        match long_comment_level(b) {
            Some(k) => match long_bracket_close(b, k + 4 as int, k) {
                Some(e) => CommentScan::Skip(e as nat),
                None => CommentScan::Unclosed,
            },
            None => {
                let from = if 2 < b.len() && b[2] == '[' as u8 {
                    3 + run_len(b, 3, ByteClass::Equals) as int
                } else {
                    2
                };
                match find_byte(b, from, '\n' as u8) {
                    Some(p) => CommentScan::Skip((p + 1) as nat),
                    None => CommentScan::Skip(b.len()),
                }
            },
        }
    }
}

/// How many bytes of white space and comments are at the front of `b`, or
/// `None` when they hold an unclosed long comment. White space is skipped
/// first, a comment only where no white space is.
pub open spec fn trivia_len(b: Seq<u8>) -> Option<nat>
    decreases b.len(),
{
    let w = white_space_prefix_len(b);
    proof {
        lemma_white_space_prefix_len(b);
        lemma_scan_comment_bounds(b);
    }
    if w > 0 {
        match trivia_len(b.skip(w as int)) {
            Some(n) => Some(n + w),
            None => None,
        }
    } else {
        match scan_comment(b) {
            CommentScan::NotComment => Some(0),
            CommentScan::Skip(n) => match trivia_len(b.skip(n as int)) {
                Some(m) => Some(m + n),
                None => None,
            },
            CommentScan::Unclosed => None,
        }
    }
}

// ----- the whole lexer -----

/// One step of the lexer on the remaining bytes `b`.
pub enum Step {
    /// The lexer stops on malformed text.
    Fail,
    /// After skipping this many bytes of white space and comments, no token
    /// starts.
    Finished(nat),
    /// The next token, and where its text starts and ends in `b`.
    Token(Lexeme, nat, nat),
}

pub open spec fn lex_step(b: Seq<u8>) -> Step {
    match trivia_len(b) {
        None => Step::Fail,
        Some(t) => {
            let r = b.skip(t as int);
            match first_token(r) {
                Scan::Fail => Step::Fail,
                Scan::NoMatch => Step::Finished(t),
                Scan::Match(k, n) => Step::Token(Lexeme { kind: k, text: r.take(n as int) }, t, t + n),
            }
        },
    }
}

/// The tokens of `b`, or `None` when the lexer stops on malformed text or
/// on text where no token starts.
pub open spec fn lex_all(b: Seq<u8>) -> Option<Seq<Lexeme>>
    decreases b.len(),
{
    proof {
        lemma_lex_step_bounds(b);
    }
    match lex_step(b) {
        Step::Fail => None,
        Step::Finished(t) => if t == b.len() {
            Some(seq![])
        } else {
            None
        },
        Step::Token(x, s, e) => match lex_all(b.skip(e as int)) {
            Some(rest) => Some(seq![x] + rest),
            None => None,
        },
    }
}

/// The tokens that the lexer reads from `b` before it stops, whether it stops
/// at the end of the text, on malformed text or where no token starts.
pub open spec fn lex_prefix(b: Seq<u8>) -> Seq<Lexeme>
    decreases b.len(),
{
    proof {
        lemma_lex_step_bounds(b);
    }
    match lex_step(b) {
        Step::Token(x, s, e) => seq![x] + lex_prefix(b.skip(e as int)),
        _ => seq![],
    }
}

/// Where the whole text lexes, its tokens are those read before the lexer
/// stops.
pub proof fn lemma_lex_all_prefix(b: Seq<u8>)
    ensures
        lex_all(b) is Some ==> lex_all(b)->0 == lex_prefix(b),
    decreases b.len(),
{
    lemma_lex_step_bounds(b);
    if let Step::Token(x, s, e) = lex_step(b) {
        lemma_lex_all_prefix(b.skip(e as int));
    }
}

// ----- bounds -----

pub proof fn lemma_long_bracket_close_bounds(b: Seq<u8>, i: int, level: nat)
    requires
        0 <= i,
    ensures
        long_bracket_close(b, i, level) matches Some(e) ==> {
            &&& i <= e - level - 2
            &&& e <= b.len()
            &&& b[e - 1] == ']' as u8
            &&& b[e - level - 2] == ']' as u8
            &&& forall|j: int| e - level - 1 <= j < e - 1 ==> b[j] == '=' as u8
        },
    decreases b.len() - i,
{
    if 0 <= i < b.len() {
        let c = i + 1;
        lemma_run_len_bounds(b, c, ByteClass::Equals);
        if b[i] == ']' as u8 {
            let k = run_len(b, c, ByteClass::Equals);
            let d = c + k;
            if !(k == level && d < b.len() && b[d] == ']' as u8) {
                lemma_long_bracket_close_bounds(b, d, level);
            } else {
                assert forall|j: int| c <= j < d implies b[j] == '=' as u8 by {
                    assert(in_class(b[j], ByteClass::Equals));
                }
            }
        } else {
            lemma_long_bracket_close_bounds(b, i + 1, level);
        }
    }
}

pub proof fn lemma_scan_comment_bounds(b: Seq<u8>)
    ensures
        scan_comment(b) matches CommentScan::Skip(n) ==> 2 <= n <= b.len(),
{
    if starts_comment(b) {
        match long_comment_level(b) {
            Some(k) => {
                lemma_long_bracket_close_bounds(b, k + 4 as int, k);
            },
            None => {
                if 2 < b.len() {
                    lemma_run_len_bounds(b, 3, ByteClass::Equals);
                }
                let from = if 2 < b.len() && b[2] == '[' as u8 {
                    3 + run_len(b, 3, ByteClass::Equals) as int
                } else {
                    2
                };
                lemma_find_byte(b, from, '\n' as u8);
            },
        }
    }
}

pub proof fn lemma_trivia_len_bounds(b: Seq<u8>)
    ensures
        trivia_len(b) matches Some(t) ==> t <= b.len(),
    decreases b.len(),
{
    let w = white_space_prefix_len(b);
    lemma_white_space_prefix_len(b);
    lemma_scan_comment_bounds(b);
    if w > 0 {
        lemma_trivia_len_bounds(b.skip(w as int));
    } else {
        match scan_comment(b) {
            CommentScan::Skip(n) => {
                lemma_trivia_len_bounds(b.skip(n as int));
            },
            _ => {},
        }
    }
}

pub proof fn lemma_first_token_bounds(b: Seq<u8>)
    ensures
        first_token(b) matches Scan::Match(k, n) ==> 1 <= n <= b.len(),
{
    lemma_run_len_bounds(b, 0, ByteClass::IdentChar);
    lemma_numeric_bounds(b);
    match scan_short_string(b) {
        Scan::Match(_, _) => {
            lemma_short_string_close_bounds(b, b[0], 2);
        },
        _ => {},
    }
    match opening_long_bracket(b) {
        Some(k) => {
            lemma_long_bracket_close_bounds(b, k + 2 as int, k);
        },
        None => {},
    }
}

pub proof fn lemma_short_string_close_bounds(b: Seq<u8>, q: u8, j: int)
    requires
        0 <= j,
    ensures
        short_string_close(b, q, j) matches Some(p) ==> j <= p < b.len() && b[p] == q,
    decreases b.len() - j,
{
    if 0 <= j < b.len() && !(b[j] == q && backslashes_before(b, j) % 2 == 0) {
        lemma_short_string_close_bounds(b, q, j + 1);
    }
}

pub proof fn lemma_numeric_bounds(b: Seq<u8>)
    ensures
        scan_numeric(b) matches Scan::Match(k, n) ==> 1 <= n <= b.len(),
{
    if starts_hex(b) {
        lemma_hex_layout(b);
    } else if starts_decimal(b) {
        lemma_decimal_layout(b);
    }
}

/// The parts of a decimal numeral lie in order inside `b`.
pub proof fn lemma_decimal_layout(b: Seq<u8>)
    ensures
        0 <= decimal_int_end(b) <= decimal_frac_end(b) <= b.len(),
        decimal_has_point(b) ==> decimal_int_end(b) + 1 <= decimal_frac_end(b),
        decimal_has_exponent(b) ==> decimal_frac_end(b) + 1 <= decimal_exp_digits_start(b)
            <= decimal_exp_end(b) <= b.len(),
        decimal_frac_end(b) <= decimal_end(b) <= b.len(),
{
    lemma_run_len_bounds(b, 0, ByteClass::Digit);
    let i = decimal_int_end(b);
    if decimal_has_point(b) {
        lemma_run_len_bounds(b, i + 1, ByteClass::Digit);
    }
    if decimal_has_exponent(b) {
        lemma_run_len_bounds(b, decimal_exp_digits_start(b), ByteClass::Digit);
    }
}

/// The parts of a hexadecimal numeral lie in order inside `b`.
pub proof fn lemma_hex_layout(b: Seq<u8>)
    requires
        starts_hex(b),
    ensures
        2 <= hex_int_end(b) <= hex_frac_end(b) <= b.len(),
        hex_has_point(b) ==> hex_int_end(b) + 1 <= hex_frac_end(b),
        hex_has_exponent(b) ==> hex_frac_end(b) + 1 <= hex_exp_digits_start(b) <= hex_end(b)
            <= b.len(),
        hex_frac_end(b) <= hex_end(b) <= b.len(),
{
    lemma_run_len_bounds(b, 2, ByteClass::HexDigit);
    let i = hex_int_end(b);
    if hex_has_point(b) {
        lemma_run_len_bounds(b, i + 1, ByteClass::HexDigit);
    }
    if hex_has_exponent(b) {
        lemma_run_len_bounds(b, hex_exp_digits_start(b), ByteClass::Digit);
    }
}

/// A well-formed hexadecimal numeral ends with an ASCII byte.
pub proof fn lemma_hex_end_ascii(b: Seq<u8>)
    requires
        starts_hex(b),
        hex_int_digits(b).len() > 0 || hex_frac_digits(b).len() > 0,
        hex_has_exponent(b) ==> hex_exp_digit_count(b) > 0,
    ensures
        2 <= hex_end(b) <= b.len(),
        b[hex_end(b) - 1] < 0x80,
{
    lemma_hex_layout(b);
    let i = hex_int_end(b);
    lemma_run_len_bounds(b, 2, ByteClass::HexDigit);
    if hex_has_point(b) {
        lemma_run_len_bounds(b, i + 1, ByteClass::HexDigit);
    }
    if hex_has_exponent(b) {
        lemma_run_len_bounds(b, hex_exp_digits_start(b), ByteClass::Digit);
        assert(in_class(b[hex_end(b) - 1], ByteClass::Digit));
    } else if hex_has_point(b) {
        if hex_frac_end(b) > i + 1 {
            assert(in_class(b[hex_end(b) - 1], ByteClass::HexDigit));
        }
    } else {
        assert(in_class(b[hex_end(b) - 1], ByteClass::HexDigit));
    }
}

pub proof fn lemma_lex_step_bounds(b: Seq<u8>)
    ensures
        lex_step(b) matches Step::Token(x, s, e) ==> s < e <= b.len(),
        lex_step(b) matches Step::Finished(t) ==> t <= b.len(),
{
    lemma_trivia_len_bounds(b);
    match trivia_len(b) {
        Some(t) => {
            lemma_first_token_bounds(b.skip(t as int));
        },
        None => {},
    }
}

} // verus!
