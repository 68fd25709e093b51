//! The lexer: a cursor over the source text that hands out tokens.

use vstd::prelude::*;
use vstd::string::*;
use vstd::utf8::*;
use vstd::std_specs::iter::IteratorSpec;

use crate::bytes::{
    count_run, digit_value, digits_value, find_first, in_class, white_space_prefix_len, ByteClass,
    lemma_ascii_boundaries, lemma_digits_value_prefix, lemma_digits_value_push, lemma_find_byte,
    lemma_run_len_bounds, lemma_white_space_prefix_len,
};
use crate::grammar::{
    backslashes_before, decimal_end, decimal_exp_end, decimal_exp_sign_only, decimal_exp_text, decimal_float_text,
    decimal_frac_digits, decimal_frac_end, decimal_has_exponent, decimal_has_point,
    decimal_int_digits, decimal_int_end, first_token, hex_end, hex_exp_digit_count, hex_exp_text,
    hex_float_text, hex_frac_digits, hex_frac_end, hex_has_exponent, hex_has_point, hex_int_digits,
    hex_int_end, lex_all, lex_prefix, lemma_lex_all_prefix, lex_step, long_bracket_close, scan_comment, scan_decimal, scan_hex,
    scan_identifier, scan_long_string, scan_numeric, scan_short_string, scan_symbol_token,
    short_string_close, starts_decimal, starts_hex, trivia_len, CommentScan, Scan, Step,
    lemma_decimal_layout, lemma_first_token_bounds, lemma_hex_layout, lemma_lex_step_bounds,
    lemma_long_bracket_close_bounds, lemma_hex_end_ascii, lemma_scan_comment_bounds,
    lemma_short_string_close_bounds, lemma_trivia_len_bounds,
};
use crate::keyword::keyword_from_bytes;
use crate::symbol::{symbol_at_front, lemma_scan_symbol};
use crate::token::{Lexeme, LiteralString, NumericConstant, Span, Token, TokenKind};

verus! {

broadcast use vstd::utf8::encode_utf8_valid_utf8;

/// Removes the leading white space of `s`.
///
/// Calls `str::trim_start`, which removes the leading characters that have
/// the Unicode `White_Space` property. The contract states this over the
/// UTF-8 bytes of `s`.
#[verifier::external_body]
fn trim_start<'a>(s: &'a str) -> (r: &'a str)
    ensures
        r.spec_bytes() == s.spec_bytes().skip(white_space_prefix_len(s.spec_bytes()) as int),
{
    s.trim_start()
}

/// What a scanner that cannot fail did: on `NoMatch` nothing changed and
/// no token came; on `Match(k, n)` the token of kind `k` spans the first `n`
/// remaining bytes, and they are consumed.
pub open spec fn scanned<'i>(before: Seq<u8>, s: Scan, r: Option<Token<'i>>, after: Seq<u8>) -> bool {
    match s {
        Scan::NoMatch => r is None && after == before,
        Scan::Match(k, n) => r matches Some(t) && t@ == (Lexeme { kind: k, text: before.take(n as int) })
            && after == before.skip(n as int),
        Scan::Fail => false,
    }
}

/// What a scanner that can fail did: `Err` exactly on `Fail`, and otherwise
/// as `scanned` says.
pub open spec fn scanned_checked<'i>(
    before: Seq<u8>,
    s: Scan,
    r: Result<Option<Token<'i>>, ()>,
    after: Seq<u8>,
) -> bool {
    match r {
        Err(_) => s is Fail,
        Ok(t) => scanned(before, s, t, after),
    }
}

/// An outcome of `trivia_len`, counted from `k` bytes earlier.
pub open spec fn shifted(o: Option<nat>, k: int) -> Option<nat> {
    match o {
        Some(t) => Some((t + k) as nat),
        None => None,
    }
}

/// Skipping `n` more bytes of the trivia at the front of `before`, a suffix
/// of `start`, keeps `trivia_len(start)` counted from the new position.
proof fn lemma_trivia_advance(start: Seq<u8>, before: Seq<u8>, n: nat)
    requires
        before.len() <= start.len(),
        before == start.skip(start.len() - before.len()),
        n <= before.len(),
        trivia_len(start) == shifted(trivia_len(before), start.len() - before.len()),
        trivia_len(before) == shifted(trivia_len(before.skip(n as int)), n as int),
    ensures
        ({
            let after = before.skip(n as int);
            &&& after.len() <= start.len()
            &&& after == start.skip(start.len() - after.len())
            &&& trivia_len(start) == shifted(trivia_len(after), start.len() - after.len())
        }),
{
    assert(start.skip(start.len() - before.len()).skip(n as int) =~= start.skip(
        start.len() - before.len() + n,
    ));
}

/// Prepends `a` to the tokens of an outcome of `lex_all`.
pub open spec fn prepend(a: Seq<Lexeme>, o: Option<Seq<Lexeme>>) -> Option<Seq<Lexeme>> {
    match o {
        Some(t) => Some(a + t),
        None => None,
    }
}

#[derive(Debug)]
pub struct Lexer<'i> {
    input: &'i str,
    view: &'i str,  // the part of `input` that is left to lex
    tokens: Vec<Token<'i>>,
}

impl<'i> Lexer<'i> {
    /// The bytes of the whole source text.
    pub closed spec fn source(&self) -> Seq<u8> {
        self.input.spec_bytes()
    }

    /// The bytes of the source text that are left to lex.
    pub closed spec fn remaining(&self) -> Seq<u8> {
        self.view.spec_bytes()
    }

    /// The tokens read so far.
    pub closed spec fn tokens(&self) -> Seq<Token<'i>> {
        self.tokens@
    }

    pub open spec fn lexemes(&self) -> Seq<Lexeme> {
        self.tokens().map_values(|t: Token<'i>| t@)
    }

    /// The remaining text is the end of the source text.
    pub closed spec fn wf(&self) -> bool {
        &&& self.remaining().len() <= self.source().len()
        &&& self.remaining() == self.source().skip(
            self.source().len() - self.remaining().len(),
        )
    }

    /// The text left to lex is always the end of the source text: lexing
    /// only ever consumes the source from the front.
    pub proof fn law_remaining_is_suffix(&self)
        requires
            self.wf(),
        ensures
            self.remaining().len() <= self.source().len(),
            self.remaining() == self.source().skip(self.source().len() - self.remaining().len()),
    {
    }

    proof fn lemma_remaining_valid(&self)
        ensures
            valid_utf8(self.remaining()),
            is_char_boundary(self.remaining(), 0),
            is_char_boundary(self.remaining(), self.remaining().len() as int),
    {
        vstd::utf8::is_char_boundary_start_end_of_seq(self.remaining());
    }

    pub fn new(input: &'i str) -> (r: Lexer<'i>)
        ensures
            r.wf(),
            r.source() == input.spec_bytes(),
            r.remaining() == input.spec_bytes(),
            r.tokens().len() == 0,
    {
        let r = Lexer { input: input, view: input, tokens: Vec::new() };
        assert(r.source().skip(0) =~= r.source());
        r
    }

    pub fn get_view(&self) -> (r: &'i str)
        ensures
            r.spec_bytes() == self.remaining(),
    {
        self.view
    }

    pub fn view_len(&self) -> (r: usize)
        ensures
            r == self.remaining().len(),
    {
        self.view.as_bytes().len()
    }

    pub fn tokens_len(&self) -> (r: usize)
        ensures
            r == self.tokens().len(),
    {
        self.tokens.len()
    }

    /// Moves the start of the remaining text `n` bytes on and returns the
    /// text passed over.
    fn advance(&mut self, n: usize) -> (span: &'i str)
        requires
            old(self).wf(),
            n <= old(self).remaining().len(),
            is_char_boundary(old(self).remaining(), n as int),
        ensures
            final(self).wf(),
            final(self).source() == old(self).source(),
            final(self).tokens() == old(self).tokens(),
            span.spec_bytes() == old(self).remaining().take(n as int),
            final(self).remaining() == old(self).remaining().skip(n as int),
    {
        proof {
            self.lemma_remaining_valid();
        }
        let (span, rest) = self.view.split_at(n);
        self.view = rest;
        proof {
            let s = old(self).source();
            let a = s.len() - old(self).remaining().len();
            assert(s.skip(a).skip(n as int) =~= s.skip(a + n));
            assert(old(self).remaining().subrange(0, n as int) =~= old(self).remaining().take(
                n as int,
            ));
            assert(old(self).remaining().subrange(n as int, old(self).remaining().len() as int)
                =~= old(self).remaining().skip(n as int));
        }
        span
    }

    /// Skips the white space at the front of the remaining text; says
    /// whether there was any.
    pub fn skip_whitespace(&mut self) -> (r: bool)
        requires
            old(self).wf(),
        ensures
            final(self).wf(),
            final(self).source() == old(self).source(),
            final(self).tokens() == old(self).tokens(),
            final(self).remaining() == old(self).remaining().skip(
                white_space_prefix_len(old(self).remaining()) as int,
            ),
            r == (white_space_prefix_len(old(self).remaining()) > 0),
    {
        let l1 = self.view.as_bytes().len();
        self.view = trim_start(self.view);
        proof {
            let b = old(self).remaining();
            let w = white_space_prefix_len(b);
            lemma_white_space_prefix_len(b);
            let s = old(self).source();
            let a = s.len() - b.len();
            assert(s.skip(a).skip(w as int) =~= s.skip(a + w));
        }
        return l1 != self.view.as_bytes().len();
    }

    /// Skips a comment at the front of the remaining text; says whether
    /// there was one. `Err` for an unclosed long comment.
    fn skip_comment_checked(&mut self) -> (r: Result<bool, ()>)
        requires
            old(self).wf(),
        ensures
            final(self).wf(),
            final(self).source() == old(self).source(),
            final(self).tokens() == old(self).tokens(),
            match scan_comment(old(self).remaining()) {
                CommentScan::NotComment => r == Ok::<bool, ()>(false) && final(self).remaining()
                    == old(self).remaining(),
                CommentScan::Skip(n) => r == Ok::<bool, ()>(true) && final(self).remaining()
                    == old(self).remaining().skip(n as int),
                CommentScan::Unclosed => r is Err,
            },
    {
        let bytes = self.view.as_bytes();
        let len = bytes.len();
        proof {
            self.lemma_remaining_valid();
            lemma_scan_comment_bounds(bytes@);
        }
        if !(len >= 2 && bytes[0] == '-' as u8 && bytes[1] == '-' as u8) {
            return Ok(false);
        }
        let mut cursor: usize = 2;
        let mut is_long = false;
        let mut opening_eq: usize = 0;
        if cursor < len && bytes[cursor] == '[' as u8 {
            cursor = cursor + 1;
            opening_eq = count_run(bytes, cursor, ByteClass::Equals);
            cursor = cursor + opening_eq;
            if cursor < len && bytes[cursor] == '[' as u8 {
                cursor = cursor + 1;
                is_long = true;
            }
        }
        if !is_long {
            // a short comment runs to the end of the line
            match find_first(bytes, cursor, '\n' as u8) {
                Some(p) => {
                    proof {
                        lemma_find_byte(bytes@, cursor as int, '\n' as u8);
                        lemma_ascii_boundaries(bytes@, p as int);
                    }
                    self.advance(p + 1);
                },
                None => {
                    self.advance(len);
                },
            }
            return Ok(true);
        }
        match find_long_close(bytes, cursor, opening_eq) {
            Some(e) => {
                proof {
                    lemma_long_bracket_close_bounds(bytes@, cursor as int, opening_eq as nat);
                    lemma_ascii_boundaries(bytes@, e - 1);
                }
                self.advance(e);
                Ok(true)
            },
            None => Err(()),
        }
    }

    /// Skips a comment at the front of the remaining text; says whether
    /// there was one.
    fn skip_comment(&mut self) -> (r: bool)
        requires
            old(self).wf(),
            !(scan_comment(old(self).remaining()) is Unclosed),
        ensures
            final(self).wf(),
            final(self).source() == old(self).source(),
            final(self).tokens() == old(self).tokens(),
            match scan_comment(old(self).remaining()) {
                CommentScan::NotComment => !r && final(self).remaining() == old(self).remaining(),
                CommentScan::Skip(n) => r && final(self).remaining() == old(self).remaining().skip(
                    n as int,
                ),
                CommentScan::Unclosed => false,
            },
    {
        match self.skip_comment_checked() {
            Ok(r) => r,
            Err(_) => false,
        }
    }

    /// Skips white space and comments; `Err` on an unclosed long comment.
    fn skip_trivia(&mut self) -> (r: Result<(), ()>)
        requires
            old(self).wf(),
        ensures
            final(self).wf(),
            final(self).source() == old(self).source(),
            final(self).tokens() == old(self).tokens(),
            match trivia_len(old(self).remaining()) {
                Some(t) => r is Ok && final(self).remaining() == old(self).remaining().skip(t as int),
                None => r is Err,
            },
    {
        let ghost start = self.remaining();
        loop
            invariant
                self.wf(),
                self.source() == old(self).source(),
                self.tokens() == old(self).tokens(),
                start == old(self).remaining(),
                self.remaining().len() <= start.len(),
                self.remaining() == start.skip(start.len() - self.remaining().len()),
                trivia_len(start) == shifted(
                    trivia_len(self.remaining()),
                    start.len() - self.remaining().len(),
                ),
            ensures
                self.wf(),
                self.source() == old(self).source(),
                self.tokens() == old(self).tokens(),
                match trivia_len(start) {
                    Some(t) => self.remaining() == start.skip(t as int),
                    None => false,
                },
            decreases self.remaining().len(),
        {
            let ghost before = self.remaining();
            proof {
                lemma_white_space_prefix_len(before);
                lemma_scan_comment_bounds(before);
            }
            if self.skip_whitespace() {
                proof {
                    lemma_trivia_advance(start, before, white_space_prefix_len(before));
                }
                continue;
            }
            match self.skip_comment_checked() {
                Ok(true) => {
                    proof {
                        if let CommentScan::Skip(n) = scan_comment(before) {
                            lemma_trivia_advance(start, before, n);
                        }
                    }
                },
                Ok(false) => {
                    proof {
                        assert(trivia_len(before) == Some(0nat));
                    }
                    break ;
                },
                Err(_) => {
                    return Err(());
                },
            }
        }
        Ok(())
    }

    pub fn lex_identifier_or_keyword(&mut self) -> (r: Option<Token<'i>>)
        requires
            old(self).wf(),
        ensures
            final(self).wf(),
            final(self).source() == old(self).source(),
            final(self).tokens() == old(self).tokens(),
            scanned(
                old(self).remaining(),
                scan_identifier(old(self).remaining()),
                r,
                final(self).remaining(),
            ),
    {
        let bytes = self.view.as_bytes();
        if bytes.len() == 0 {
            return None;
        }
        let b = bytes[0];
        if !(('a' as u8 <= b && b <= 'z' as u8) || ('A' as u8 <= b && b <= 'Z' as u8) || b
            == '_' as u8) {
            return None;
        }
        let n = count_run(bytes, 0, ByteClass::IdentChar);
        proof {
            self.lemma_remaining_valid();
            lemma_run_len_bounds(bytes@, 0, ByteClass::IdentChar);
            assert(in_class(bytes@[(n - 1) as int], ByteClass::IdentChar));
            lemma_ascii_boundaries(bytes@, n - 1);
        }
        let word = self.advance(n);
        let kind = match keyword_from_bytes(word.as_bytes()) {
            Some(k) => TokenKind::Keyword(k),
            None => TokenKind::Identifier,
        };
        Some(Token::new(kind, Span(word)))
    }

    pub fn lex_numeric_constant(&mut self) -> (r: Option<Token<'i>>)
        requires
            old(self).wf(),
            !(scan_numeric(old(self).remaining()) is Fail),
        ensures
            final(self).wf(),
            final(self).source() == old(self).source(),
            final(self).tokens() == old(self).tokens(),
            scanned(
                old(self).remaining(),
                scan_numeric(old(self).remaining()),
                r,
                final(self).remaining(),
            ),
    {
        match self.lex_numeric_checked() {
            Ok(t) => t,
            Err(_) => None,
        }
    }

    /// Reads a numeral; `Err` where the numeral is malformed.
    pub fn lex_numeric_checked(&mut self) -> (r: Result<Option<Token<'i>>, ()>)
        requires
            old(self).wf(),
        ensures
            final(self).wf(),
            final(self).source() == old(self).source(),
            final(self).tokens() == old(self).tokens(),
            scanned_checked(
                old(self).remaining(),
                scan_numeric(old(self).remaining()),
                r,
                final(self).remaining(),
            ),
    {
        let bytes = self.view.as_bytes();
        let len = bytes.len();
        if len >= 2 && bytes[0] == '0' as u8 && (bytes[1] == 'x' as u8 || bytes[1] == 'X' as u8) {
            // a hexadecimal numeral
            return self.lex_hexadecimal_numeric_constant(bytes, 2);
        }
        if (len >= 1 && '0' as u8 <= bytes[0] && bytes[0] <= '9' as u8) || (len >= 2 && bytes[0]
            == '.' as u8 && '0' as u8 <= bytes[1] && bytes[1] <= '9' as u8) {
            return self.lex_decimal_numeric_constant(bytes, 0);
        }
        Ok(None)
    }

    fn lex_decimal_numeric_constant(&mut self, bytes: &'i [u8], cursor: usize) -> (r: Result<
        Option<Token<'i>>,
        (),
    >)
        requires
            old(self).wf(),
            bytes@ == old(self).remaining(),
            cursor == 0,
            starts_decimal(bytes@),
        ensures
            final(self).wf(),
            final(self).source() == old(self).source(),
            final(self).tokens() == old(self).tokens(),
            scanned_checked(
                old(self).remaining(),
                scan_decimal(old(self).remaining()),
                r,
                final(self).remaining(),
            ),
    {
        let ghost b = bytes@;
        proof {
            self.lemma_remaining_valid();
        }
        let (int_end, has_point, frac_end, has_exp, exp_end, end) = decimal_layout(bytes, cursor);
        let frac_len: usize = if has_point {
            frac_end - int_end - 1
        } else {
            0
        };
        if int_end == 0 && frac_len == 0 {
            return Err(());
        }
        // the numeral must end where a character starts
        let len = bytes.len();
        let at_boundary = end == len || !(0x80 <= bytes[end] && bytes[end] <= 0xBF);
        proof {
            if end < len {
                is_char_boundary_iff_not_is_continuation_byte(b, end as int);
            }
        }
        if !at_boundary {
            return Err(());
        }
        if !has_point {
            match digits_to_i64(bytes, 0, int_end, false) {
                None => {
                    return Err(());
                },
                Some(v) => {
                    proof {
                        assert(b.subrange(0, int_end as int) =~= decimal_int_digits(b));
                    }
                    let span = self.advance(end);
                    return Ok(
                        Some(Token::new(TokenKind::NumericConstant(NumericConstant::Integer(v)), Span(span))),
                    );
                },
            }
        }
        // an exponent that is a sign alone makes text that no float parser reads
        if has_exp && exp_end - frac_end == 2 && (bytes[frac_end + 1] == '+' as u8 || bytes[frac_end
            + 1] == '-' as u8) {
            return Err(());
        }
        proof {
            if decimal_exp_sign_only(b) {
                assert(decimal_exp_text(b)[0] == b[frac_end + 1]);
            }
        }
        let text = decimal_text(bytes, int_end, frac_end, has_exp, exp_end);
        let span = self.advance(end);
        Ok(
            Some(
                Token::new(
                    TokenKind::NumericConstant(NumericConstant::Float { hex: false, text }),
                    Span(span),
                ),
            ),
        )
    }

    fn lex_hexadecimal_numeric_constant(&mut self, bytes: &'i [u8], cursor: usize) -> (r: Result<
        Option<Token<'i>>,
        (),
    >)
        requires
            old(self).wf(),
            bytes@ == old(self).remaining(),
            cursor == 2,
            starts_hex(bytes@),
        ensures
            final(self).wf(),
            final(self).source() == old(self).source(),
            final(self).tokens() == old(self).tokens(),
            scanned_checked(
                old(self).remaining(),
                scan_hex(old(self).remaining()),
                r,
                final(self).remaining(),
            ),
    {
        let ghost b = bytes@;
        proof {
            self.lemma_remaining_valid();
        }
        let (int_end, has_point, frac_end, has_exp, exp_digits, end) = hex_layout(bytes, cursor);
        let frac_len: usize = if has_point {
            frac_end - int_end - 1
        } else {
            0
        };
        if int_end == 2 && frac_len == 0 {
            return Err(());
        }
        if has_exp && exp_digits == 0 {
            return Err(());
        }
        proof {
            // the numeral ends with an ASCII byte, so a character starts after it
            lemma_hex_end_ascii(b);
            lemma_ascii_boundaries(b, end - 1);
        }
        if !has_point && !has_exp {
            match digits_to_i64(bytes, 2, int_end, true) {
                None => {
                    return Err(());
                },
                Some(v) => {
                    let span = self.advance(end);
                    return Ok(
                        Some(Token::new(TokenKind::NumericConstant(NumericConstant::Integer(v)), Span(span))),
                    );
                },
            }
        }
        let text = hex_text(bytes, int_end, has_point, frac_end, has_exp, end);
        let span = self.advance(end);
        Ok(
            Some(
                Token::new(
                    TokenKind::NumericConstant(NumericConstant::Float { hex: true, text }),
                    Span(span),
                ),
            ),
        )
    }
}

/// Where the parts of the hexadecimal numeral at the front of `b` end, and
/// how many exponent digits it has.
fn hex_layout(bytes: &[u8], cursor: usize) -> (r: (usize, bool, usize, bool, usize, usize))
    requires
        cursor == 2,
        starts_hex(bytes@),
    ensures
        r.0 == hex_int_end(bytes@),
        r.1 == hex_has_point(bytes@),
        r.2 == hex_frac_end(bytes@),
        r.3 == hex_has_exponent(bytes@),
        r.3 ==> r.4 == hex_exp_digit_count(bytes@),
        r.5 == hex_end(bytes@),
        2 <= r.0 <= r.2 <= r.5 <= bytes@.len(),
        r.1 ==> r.0 + 1 <= r.2,
        r.3 ==> r.2 + 1 <= r.5,
{
    proof {
        lemma_hex_layout(bytes@);
    }
    let len = bytes.len();
    let mut cursor = cursor;
    cursor = cursor + count_run(bytes, cursor, ByteClass::HexDigit);
    let int_end = cursor;
    let mut has_point = false;
    if cursor < len && bytes[cursor] == '.' as u8 {
        has_point = true;
        cursor = cursor + 1;
        cursor = cursor + count_run(bytes, cursor, ByteClass::HexDigit);
    }
    let frac_end = cursor;
    let mut has_exp = false;
    let mut nd: usize = 0;
    if cursor < len && (bytes[cursor] == 'p' as u8 || bytes[cursor] == 'P' as u8) {
        has_exp = true;
        cursor = cursor + 1;
        if cursor < len && (bytes[cursor] == '-' as u8 || bytes[cursor] == '+' as u8) {
            cursor = cursor + 1;
        }
        nd = count_run(bytes, cursor, ByteClass::Digit);
        cursor = cursor + nd;
    }
    (int_end, has_point, frac_end, has_exp, nd, cursor)
}

/// The normalized text of a hexadecimal numeral with a point or an
/// exponent.
fn hex_text(bytes: &[u8], int_end: usize, has_point: bool, frac_end: usize, has_exp: bool, end: usize) -> (text: Vec<u8>)
    requires
        starts_hex(bytes@),
        int_end == hex_int_end(bytes@),
        has_point == hex_has_point(bytes@),
        frac_end == hex_frac_end(bytes@),
        has_exp == hex_has_exponent(bytes@),
        end == hex_end(bytes@),
        2 <= int_end <= frac_end <= end <= bytes@.len(),
        has_point ==> int_end + 1 <= frac_end,
        has_exp ==> frac_end + 1 <= end,
        has_exp ==> hex_exp_digit_count(bytes@) > 0,
    ensures
        text@ == hex_float_text(
            hex_int_digits(bytes@),
            hex_frac_digits(bytes@),
            hex_exp_text(bytes@),
        ),
{
    let ghost b = bytes@;
    proof {
        lemma_hex_layout(b);
    }
    let mut text: Vec<u8> = Vec::new();
    text.push('0' as u8);
    text.push('x' as u8);
    if int_end > 2 {
        push_bytes(&mut text, bytes, 2, int_end);
    } else {
        text.push('0' as u8);
    }
    let ghost t1 = text@;
    assert(t1 =~= seq!['0' as u8, 'x' as u8] + if hex_int_digits(b).len() > 0 { hex_int_digits(b) } else { seq!['0' as u8] });
    text.push('.' as u8);
    if has_point && frac_end > int_end + 1 {
        push_bytes(&mut text, bytes, int_end + 1, frac_end);
    } else {
        text.push('0' as u8);
    }
    let ghost t2 = text@;
    assert(t2 =~= t1 + seq!['.' as u8] + if hex_frac_digits(b).len() > 0 { hex_frac_digits(b) } else { seq!['0' as u8] });
    text.push('p' as u8);
    if has_exp {
        push_bytes(&mut text, bytes, frac_end + 1, end);
    } else {
        text.push('0' as u8);
    }
    assert(text@ =~= t2 + seq!['p' as u8] + if hex_exp_text(b).len() > 0 { hex_exp_text(b) } else { seq!['0' as u8] });
    text
}

/// Where the parts of the decimal numeral at the front of `b` end: the
/// integer digits, the point, the fractional digits, the exponent and the
/// numeral.
fn decimal_layout(bytes: &[u8], cursor: usize) -> (r: (usize, bool, usize, bool, usize, usize))
    requires
        cursor == 0,
    ensures
        r.0 == decimal_int_end(bytes@),
        r.1 == decimal_has_point(bytes@),
        r.2 == decimal_frac_end(bytes@),
        r.3 == decimal_has_exponent(bytes@),
        r.3 ==> r.4 == decimal_exp_end(bytes@),
        r.5 == decimal_end(bytes@),
        r.0 <= r.2 <= r.5 <= bytes@.len(),
        r.1 ==> r.0 + 1 <= r.2,
        r.3 ==> r.2 + 1 <= r.4 <= bytes@.len(),
{
    proof {
        lemma_decimal_layout(bytes@);
    }
    let len = bytes.len();
    let int_end = count_run(bytes, cursor, ByteClass::Digit);
    let mut cursor = int_end;
    let mut has_point = false;
    if cursor < len && bytes[cursor] == '.' as u8 {
        has_point = true;
        cursor = cursor + 1;
        let nf = count_run(bytes, cursor, ByteClass::Digit);
        cursor = cursor + nf;
    }
    let frac_end = cursor;
    let mut exp_end = frac_end;
    let has_exp = cursor < len && (bytes[cursor] == 'e' as u8 || bytes[cursor] == 'E' as u8);
    if has_exp {
        cursor = cursor + 1;
        if cursor < len && (bytes[cursor] == '+' as u8 || bytes[cursor] == '-' as u8) {
            cursor = cursor + 1;
        }
        let nd = count_run(bytes, cursor, ByteClass::Digit);
        cursor = cursor + nd;
        exp_end = cursor;
        // the byte after the exponent digits is taken too
        if cursor < len {
            cursor = cursor + 1;
        }
    }
    (int_end, has_point, frac_end, has_exp, exp_end, cursor)
}

/// The normalized text of a decimal numeral with a point.
fn decimal_text(bytes: &[u8], int_end: usize, frac_end: usize, has_exp: bool, exp_end: usize) -> (text: Vec<u8>)
    requires
        int_end == decimal_int_end(bytes@),
        frac_end == decimal_frac_end(bytes@),
        decimal_has_point(bytes@),
        has_exp == decimal_has_exponent(bytes@),
        has_exp ==> exp_end == decimal_exp_end(bytes@),
        int_end + 1 <= frac_end <= bytes@.len(),
        has_exp ==> frac_end + 1 <= exp_end <= bytes@.len(),
    ensures
        text@ == decimal_float_text(
            decimal_int_digits(bytes@),
            decimal_frac_digits(bytes@),
            decimal_exp_text(bytes@),
        ),
{
    let ghost b = bytes@;
    let mut text: Vec<u8> = Vec::new();
    if int_end > 0 {
        push_bytes(&mut text, bytes, 0, int_end);
    } else {
        text.push('0' as u8);
    }
    let ghost t1 = text@;
    assert(t1 =~= if decimal_int_digits(b).len() > 0 { decimal_int_digits(b) } else { seq!['0' as u8] });
    if frac_end > int_end + 1 {
        text.push('.' as u8);
        push_bytes(&mut text, bytes, int_end + 1, frac_end);
    } else {
        text.push('0' as u8);
    }
    let ghost t2 = text@;
    assert(t2 =~= t1 + if decimal_frac_digits(b).len() > 0 { seq!['.' as u8] + decimal_frac_digits(b) } else { seq!['0' as u8] });
    if has_exp && exp_end > frac_end + 1 {
        text.push('e' as u8);
        push_bytes(&mut text, bytes, frac_end + 1, exp_end);
    }
    assert(text@ =~= t2 + if decimal_exp_text(b).len() > 0 { seq!['e' as u8] + decimal_exp_text(b) } else { seq![] });
    text
}

/// Appends `b[from..to]` to `v`.
fn push_bytes(v: &mut Vec<u8>, b: &[u8], from: usize, to: usize)
    requires
        from <= to <= b@.len(),
    ensures
        final(v)@ == old(v)@ + b@.subrange(from as int, to as int),
{
    let mut i = from;
    while i < to
        invariant
            from <= i <= to <= b@.len(),
            v@ == old(v)@ + b@.subrange(from as int, i as int),
        decreases to - i,
    {
        v.push(b[i]);
        i = i + 1;
        assert(v@ =~= old(v)@ + b@.subrange(from as int, i as int));
    }
}

/// The value of a digit.
fn digit_of(c: u8) -> (r: u8)
    ensures
        r == digit_value(c),
{
    if '0' as u8 <= c && c <= '9' as u8 {
        c - '0' as u8
    } else if 'a' as u8 <= c && c <= 'f' as u8 {
        c - 'a' as u8 + 10
    } else if 'A' as u8 <= c && c <= 'F' as u8 {
        c - 'A' as u8 + 10
    } else {
        0
    }
}

/// The value of the digits `b[from..to]`, or `None` when it does not fit in
/// an `i64`.
fn digits_to_i64(b: &[u8], from: usize, to: usize, hex: bool) -> (r: Option<i64>)
    requires
        from <= to <= b@.len(),
    ensures
        r matches Some(v) ==> v == digits_value(b@.subrange(from as int, to as int), hex),
        r is None <==> digits_value(b@.subrange(from as int, to as int), hex) > i64::MAX,
{
    let ghost s = b@.subrange(from as int, to as int);
    let mut acc: i64 = 0;
    let mut i = from;
    assert(s.take(0) =~= seq![]);
    while i < to
        invariant
            from <= i <= to <= b@.len(),
            s == b@.subrange(from as int, to as int),
            0 <= acc,
            acc == digits_value(s.take(i - from), hex),
        decreases to - i,
    {
        proof {
            lemma_digits_value_push(s, i - from, hex);
            lemma_digits_value_prefix(s, i - from + 1, hex);
        }
        let d = digit_of(b[i]) as i64;
        let m = if hex {
            acc.checked_mul(16)
        } else {
            acc.checked_mul(10)
        };
        match m {
            None => {
                return None;
            },
            Some(m) => match m.checked_add(d) {
                None => {
                    return None;
                },
                Some(v) => {
                    acc = v;
                },
            },
        }
        i = i + 1;
    }
    assert(s.take(to - from) =~= s);
    Some(acc)
}

/// Finds the closing long bracket of level `level` from `from` on.
fn find_long_close(b: &[u8], from: usize, level: usize) -> (r: Option<usize>)
    requires
        from <= b@.len(),
    ensures
        r matches Some(e) ==> long_bracket_close(b@, from as int, level as nat) == Some(e as int),
        r is None ==> long_bracket_close(b@, from as int, level as nat) is None,
{
    let len = b.len();
    let mut cursor = from;
    while cursor < len
        invariant
            from <= cursor <= len == b@.len(),
            long_bracket_close(b@, from as int, level as nat) == long_bracket_close(
                b@,
                cursor as int,
                level as nat,
            ),
        decreases len - cursor,
    {
        let x = b[cursor];
        cursor = cursor + 1;
        if x != ']' as u8 {
            continue;
        }
        let closing_eq = count_run(b, cursor, ByteClass::Equals);
        cursor = cursor + closing_eq;
        if closing_eq != level {
            continue;
        }
        if cursor < len && b[cursor] == ']' as u8 {
            return Some(cursor + 1);
        }
    }
    None
}


impl<'i> Lexer<'i> {
    pub fn lex_short_literal_string(&mut self) -> (r: Option<Token<'i>>)
        requires
            old(self).wf(),
            !(scan_short_string(old(self).remaining()) is Fail),
        ensures
            final(self).wf(),
            final(self).source() == old(self).source(),
            final(self).tokens() == old(self).tokens(),
            scanned(
                old(self).remaining(),
                scan_short_string(old(self).remaining()),
                r,
                final(self).remaining(),
            ),
    {
        match self.lex_short_string_checked() {
            Ok(t) => t,
            Err(_) => None,
        }
    }

    /// Reads a quoted string; `Err` where it is not closed.
    pub fn lex_short_string_checked(&mut self) -> (r: Result<Option<Token<'i>>, ()>)
        requires
            old(self).wf(),
        ensures
            final(self).wf(),
            final(self).source() == old(self).source(),
            final(self).tokens() == old(self).tokens(),
            scanned_checked(
                old(self).remaining(),
                scan_short_string(old(self).remaining()),
                r,
                final(self).remaining(),
            ),
    {
        let bytes = self.view.as_bytes();
        let ghost b = bytes@;
        let len = bytes.len();
        if len == 0 || !(bytes[0] == '"' as u8 || bytes[0] == '\'' as u8) {
            return Ok(None);
        }
        let quote = bytes[0];
        if len <= 2 {
            return Err(());
        }
        // the number of backslashes just before `j`
        let mut bslashes: usize = if bytes[1] == '\\' as u8 {
            1
        } else {
            0
        };
        let mut j: usize = 2;
        assert(backslashes_before(b, 1) == 0);
        let mut found = false;
        while j < len
            invariant_except_break
                2 <= j <= len == b.len(),
                b == bytes@,
                quote == b[0],
                !found,
                bslashes == backslashes_before(b, j as int),
                bslashes <= j,
                short_string_close(b, quote, 2) == short_string_close(b, quote, j as int),
            ensures
                2 <= j <= len,
                found ==> j < len && short_string_close(b, quote, 2) == Some(j as int),
                !found ==> short_string_close(b, quote, 2) is None,
            decreases len - j,
        {
            if bytes[j] == quote && bslashes % 2 == 0 {
                found = true;
                break;
            }
            bslashes = if bytes[j] == '\\' as u8 {
                bslashes + 1
            } else {
                0
            };
            j = j + 1;
        }
        if !found {
            return Err(());
        }
        proof {
            self.lemma_remaining_valid();
            lemma_short_string_close_bounds(b, quote, 2);
            lemma_ascii_boundaries(b, j as int);
        }
        let span = self.advance(j + 1);
        let (_open, tail) = split_after_ascii(span, 1);
        let (contents, _close) = split_at_ascii(tail, j - 1);
        proof {
            assert(contents.spec_bytes() =~= b.subrange(1, j as int));
        }
        Ok(Some(Token::new(TokenKind::LiteralString(LiteralString::Short(contents)), Span(span))))
    }

    pub fn lex_long_literal_string(&mut self) -> (r: Option<Token<'i>>)
        requires
            old(self).wf(),
        ensures
            final(self).wf(),
            final(self).source() == old(self).source(),
            final(self).tokens() == old(self).tokens(),
            scanned(
                old(self).remaining(),
                scan_long_string(old(self).remaining()),
                r,
                final(self).remaining(),
            ),
    {
        let bytes = self.view.as_bytes();
        let ghost b = bytes@;
        let len = bytes.len();
        let mut cursor: usize = 0;
        if !(cursor < len && bytes[cursor] == '[' as u8) {
            return None;
        }
        cursor = cursor + 1;
        let opening_eq = count_run(bytes, cursor, ByteClass::Equals);
        cursor = cursor + opening_eq;
        if !(cursor < len && bytes[cursor] == '[' as u8) {
            return None;
        }
        cursor = cursor + 1;
        match find_long_close(bytes, cursor, opening_eq) {
            None => None,
            Some(e) => {
                let ends_len = opening_eq + 2;
                proof {
                    self.lemma_remaining_valid();
                    lemma_long_bracket_close_bounds(b, cursor as int, opening_eq as nat);
                    lemma_ascii_boundaries(b, e - 1);
                }
                let span = self.advance(e);
                proof {
                    assert(span.spec_bytes()[ends_len - 1] == '[' as u8);
                    assert(span.spec_bytes()[e - ends_len] == ']' as u8);
                }
                let (_open, tail) = split_after_ascii(span, ends_len);
                let (inner_content, _close) = split_at_ascii(tail, e - 2 * ends_len);
                proof {
                    assert(inner_content.spec_bytes() =~= b.subrange(
                        ends_len as int,
                        e - ends_len,
                    ));
                }
                Some(
                    Token::new(
                        TokenKind::LiteralString(LiteralString::Long(inner_content)),
                        Span(span),
                    ),
                )
            },
        }
    }

    pub fn lex_symbol(&mut self) -> (r: Option<Token<'i>>)
        requires
            old(self).wf(),
        ensures
            final(self).wf(),
            final(self).source() == old(self).source(),
            final(self).tokens() == old(self).tokens(),
            scanned(
                old(self).remaining(),
                scan_symbol_token(old(self).remaining()),
                r,
                final(self).remaining(),
            ),
    {
        let bytes = self.view.as_bytes();
        let (sym, sym_len) = match symbol_at_front(bytes) {
            Some(found) => found,
            None => {
                return None;
            },
        };
        proof {
            self.lemma_remaining_valid();
            lemma_scan_symbol(bytes@);
            lemma_ascii_boundaries(bytes@, sym_len - 1);
        }
        let sym_str = self.advance(sym_len);
        Some(Token::new(TokenKind::Symbol(sym), Span(sym_str)))
    }

    /// Skips white space and comments and reads the next token; `Ok(false)`
    /// when no token starts, `Err` when the text is malformed.
    pub fn lex_one_checked(&mut self) -> (r: Result<bool, ()>)
        requires
            old(self).wf(),
        ensures
            final(self).wf(),
            final(self).source() == old(self).source(),
            match lex_step(old(self).remaining()) {
                Step::Fail => r is Err && final(self).tokens() == old(self).tokens(),
                Step::Finished(t) => r == Ok::<bool, ()>(false) && final(self).tokens()
                    == old(self).tokens() && final(self).remaining() == old(self).remaining().skip(
                    t as int,
                ),
                Step::Token(x, s, e) => r == Ok::<bool, ()>(true) && final(self).tokens().len()
                    == old(self).tokens().len() + 1 && final(self).tokens().drop_last()
                    == old(self).tokens() && final(self).tokens().last()@ == x
                    && final(self).remaining() == old(self).remaining().skip(e as int),
            },
    {
        let ghost start = self.remaining();
        if self.skip_trivia().is_err() {
            return Err(());
        }
        let ghost rest = self.remaining();
        proof {
            lemma_trivia_len_bounds(start);
            lemma_first_token_bounds(rest);
        }
        let res = match self.lex_identifier_or_keyword() {
            Some(t) => Some(t),
            None => match self.lex_numeric_checked() {
                Err(_) => {
                    return Err(());
                },
                Ok(Some(t)) => Some(t),
                Ok(None) => match self.lex_short_string_checked() {
                    Err(_) => {
                        return Err(());
                    },
                    Ok(Some(t)) => Some(t),
                    Ok(None) => match self.lex_long_literal_string() {
                        Some(t) => Some(t),
                        None => self.lex_symbol(),
                    },
                },
            },
        };
        if let Some(token) = res {
            proof {
                let t = trivia_len(start)->0;
                if let Scan::Match(k, n) = first_token(rest) {
                    assert(start.skip(t as int).take(n as int) == rest.take(n as int));
                    assert(rest.skip(n as int) =~= start.skip((t + n) as int));
                }
            }
            self.tokens.push(token);
            Ok(true)
        } else {
            Ok(false)
        }
    }

    /// Skips white space and comments and reads the next token; says
    /// whether a token starts.
    pub fn lex_one(&mut self) -> (r: bool)
        requires
            old(self).wf(),
            !(lex_step(old(self).remaining()) is Fail),
        ensures
            final(self).wf(),
            final(self).source() == old(self).source(),
            match lex_step(old(self).remaining()) {
                Step::Fail => false,
                Step::Finished(t) => !r && final(self).tokens() == old(self).tokens()
                    && final(self).remaining() == old(self).remaining().skip(t as int),
                Step::Token(x, s, e) => r && final(self).tokens().len() == old(self).tokens().len()
                    + 1 && final(self).tokens().drop_last() == old(self).tokens()
                    && final(self).tokens().last()@ == x && final(self).remaining() == old(
                    self,
                ).remaining().skip(e as int),
            },
    {
        match self.lex_one_checked() {
            Ok(r) => r,
            Err(_) => false,
        }
    }
}

impl<'i> Lexer<'i> {
    /// Reads all tokens up to the end of the text.
    ///
    /// The text must lex to its end (`lex_all` of the remaining text is not
    /// `None`); `try_lex_to_end` says whether it does.
    pub fn lex_to_end(&mut self)
        requires
            old(self).wf(),
            lex_all(old(self).remaining()) is Some,
        ensures
            final(self).wf(),
            final(self).source() == old(self).source(),
            final(self).remaining().len() == 0,
            final(self).lexemes() == old(self).lexemes() + lex_all(old(self).remaining())->0,
    {
        let ghost start = self.remaining();
        let ghost before = self.lexemes();
        loop
            invariant_except_break
                self.wf(),
                self.source() == old(self).source(),
                start == old(self).remaining(),
                before == old(self).lexemes(),
                before.len() <= self.lexemes().len(),
                self.lexemes().take(before.len() as int) == before,
                lex_all(start) == prepend(
                    self.lexemes().skip(before.len() as int),
                    lex_all(self.remaining()),
                ),
                lex_all(self.remaining()) is Some,
            ensures
                self.wf(),
                self.source() == old(self).source(),
                self.remaining().len() == 0,
                self.lexemes() == before + lex_all(start)->0,
            decreases self.remaining().len(),
        {
            let ghost rest = self.remaining();
            let ghost toks = self.tokens();
            proof {
                lemma_lex_step_bounds(rest);
            }
            if self.lex_one() == false {
                proof {
                    let added = self.lexemes().skip(before.len() as int);
                    assert(self.lexemes() =~= before + added);
                    assert(added + seq![] =~= added);
                }
                break ;
            }
            proof {
                if let Step::Token(x, s, e) = lex_step(rest) {
                    lemma_pushed_lexemes(toks, self.tokens(), x);
                    let added = toks.map_values(|t: Token<'i>| t@).skip(before.len() as int);
                    assert(self.lexemes().skip(before.len() as int) =~= added.push(x));
                    assert(self.lexemes().take(before.len() as int) =~= toks.map_values(
                        |t: Token<'i>| t@,
                    ).take(before.len() as int));
                    let rest_all = lex_all(rest.skip(e as int))->0;
                    assert(added + (seq![x] + rest_all) =~= added.push(x) + rest_all);
                }
            }
        }
    }

    /// Reads tokens until the lexer stops; says whether it stopped at the end
    /// of the text. The tokens read before a stop on malformed text, or where
    /// no token starts, are kept.
    #[verifier::rlimit(30)]
    pub fn try_lex_to_end(&mut self) -> (ok: bool)
        requires
            old(self).wf(),
        ensures
            final(self).wf(),
            final(self).source() == old(self).source(),
            ok == (lex_all(old(self).remaining()) is Some),
            final(self).lexemes() == old(self).lexemes() + lex_prefix(old(self).remaining()),
            ok ==> final(self).remaining().len() == 0 && final(self).lexemes() == old(
                self,
            ).lexemes() + lex_all(old(self).remaining())->0,
    {
        let ghost start = self.remaining();
        let ghost before = self.lexemes();
        proof {
            lemma_lex_all_prefix(start);
        }
        loop
            invariant
                lex_all(start) is Some ==> lex_all(start)->0 == lex_prefix(start),
                lex_prefix(start) == self.lexemes().skip(before.len() as int) + lex_prefix(
                    self.remaining(),
                ),
                self.wf(),
                self.source() == old(self).source(),
                start == old(self).remaining(),
                before == old(self).lexemes(),
                before.len() <= self.lexemes().len(),
                self.lexemes().take(before.len() as int) == before,
                lex_all(start) == prepend(
                    self.lexemes().skip(before.len() as int),
                    lex_all(self.remaining()),
                ),
            decreases self.remaining().len(),
        {
            let ghost rest = self.remaining();
            let ghost toks = self.tokens();
            proof {
                lemma_lex_step_bounds(rest);
            }
            match self.lex_one_checked() {
                Err(_) => {
                    proof {
                        assert(lex_prefix(rest) == Seq::<Lexeme>::empty());
                        let added = self.lexemes().skip(before.len() as int);
                        assert(self.lexemes() =~= before + added);
                        assert(added + seq![] =~= added);
                    }
                    return false;
                },
                Ok(false) => {
                    let ok = self.view.as_bytes().len() == 0;
                    proof {
                        assert(lex_prefix(rest) == Seq::<Lexeme>::empty());
                        let added = self.lexemes().skip(before.len() as int);
                        assert(self.lexemes() =~= before + added);
                        assert(added + seq![] =~= added);
                    }
                    return ok;
                },
                Ok(true) => {
                    proof {
                        if let Step::Token(x, s, e) = lex_step(rest) {
                            lemma_pushed_lexemes(toks, self.tokens(), x);
                            let added = toks.map_values(|t: Token<'i>| t@).skip(
                                before.len() as int,
                            );
                            assert(self.lexemes().skip(before.len() as int) =~= added.push(x));
                            assert(self.lexemes().take(before.len() as int) =~= toks.map_values(
                                |t: Token<'i>| t@,
                            ).take(before.len() as int));
                            assert(lex_prefix(rest) == seq![x] + lex_prefix(rest.skip(e as int)));
                            assert(added + (seq![x] + lex_prefix(rest.skip(e as int))) =~= added.push(x)
                                + lex_prefix(rest.skip(e as int)));
                            match lex_all(rest.skip(e as int)) {
                                Some(rest_all) => {
                                    assert(added + (seq![x] + rest_all) =~= added.push(x)
                                        + rest_all);
                                },
                                None => {},
                            }
                        }
                    }
                },
            }
        }
    }

    pub fn iter_tokens(&self) -> (r: core::slice::Iter<'_, Token<'i>>)
        ensures
            r.remaining() == self.tokens().as_ref(),
    {
        broadcast use vstd::std_specs::slice::axiom_spec_slice_iter;

        self.tokens.as_slice().iter()
    }

    /// An iterator over the tokens read so far that can change them. It hands
    /// out one reference to each token, in the order the tokens were read;
    /// each token ends as it was written through its reference. The number
    /// of tokens, the source and the remaining text stay as they are.
    pub fn iter_mut_tokens(&mut self) -> (r: std::slice::IterMut<'_, Token<'i>>)
        requires
            old(self).wf(),
        ensures
            final(self).wf(),
            final(self).source() == old(self).source(),
            final(self).remaining() == old(self).remaining(),
            final(self).tokens().len() == old(self).tokens().len(),
            r.obeys_prophetic_iter_laws(),
            r.remaining().len() == old(self).tokens().len(),
            forall|i: int|
                0 <= i < old(self).tokens().len() ==> *#[trigger] r.remaining()[i] == old(
                    self,
                ).tokens()[i],
            forall|i: int|
                0 <= i < old(self).tokens().len() ==> final(self).tokens()[i]
                    == *final(#[trigger] r.remaining()[i]),
    {
        slice_iter_mut(&mut self.tokens)
    }

    /// The token at position `i` among those read so far, to change in place;
    /// the other tokens and the rest of the lexer stay as they are.
    pub fn token_mut(&mut self, i: usize) -> (r: &mut Token<'i>)
        requires
            old(self).wf(),
            i < old(self).tokens().len(),
        ensures
            *r == old(self).tokens()[i as int],
            final(self).wf(),
            final(self).source() == old(self).source(),
            final(self).remaining() == old(self).remaining(),
            final(self).tokens() == old(self).tokens().update(i as int, *final(r)),
    {
        &mut self.tokens[i]
    }
}

/// The slice iterator that hands out mutable references.
#[verifier::external_type_specification]
#[verifier::external_body]
#[verifier::reject_recursive_types(T)]
pub struct ExIterMut<'a, T: 'a>(std::slice::IterMut<'a, T>);

/// Calls `<[T]>::iter_mut` on the elements of `v`. As std documents, the
/// iterator yields a mutable reference to each element, from the first to
/// the last, and then ends: what it has left to hand out starts as one
/// reference per element, in order, each to the element as it is, and each
/// element of `v` ends as its reference leaves it. The references cannot add
/// or remove elements, so `v` keeps its length.
#[verifier::external_body]
fn slice_iter_mut<'a, T>(v: &'a mut Vec<T>) -> (r: std::slice::IterMut<'a, T>)
    ensures
        final(v)@.len() == old(v)@.len(),
        r.remaining().len() == old(v)@.len(),
        forall|i: int| 0 <= i < old(v)@.len() ==> *#[trigger] r.remaining()[i] == old(v)@[i],
        forall|i: int| 0 <= i < old(v)@.len() ==> final(v)@[i] == *final(#[trigger] r.remaining()[i]),
        r.obeys_prophetic_iter_laws(),
{
    v.iter_mut()
}

/// Pushing a token pushes its lexeme.
proof fn lemma_pushed_lexemes<'i>(before: Seq<Token<'i>>, after: Seq<Token<'i>>, x: Lexeme)
    requires
        after.len() == before.len() + 1,
        after.drop_last() == before,
        after.last()@ == x,
    ensures
        after.map_values(|t: Token<'i>| t@) == before.map_values(|t: Token<'i>| t@).push(x),
{
    assert(after.map_values(|t: Token<'i>| t@) =~= before.map_values(|t: Token<'i>| t@).push(x));
}

/// Splits `s` after its first `n` bytes, where byte `n - 1` is ASCII.
fn split_after_ascii<'a>(s: &'a str, n: usize) -> (r: (&'a str, &'a str))
    requires
        0 < n <= s.spec_bytes().len(),
        s.spec_bytes()[n - 1] < 0x80,
    ensures
        r.0.spec_bytes() == s.spec_bytes().take(n as int),
        r.1.spec_bytes() == s.spec_bytes().skip(n as int),
{
    proof {
        lemma_ascii_boundaries(s.spec_bytes(), n - 1);
    }
    let r = s.split_at(n);
    proof {
        assert(s.spec_bytes().subrange(0, n as int) =~= s.spec_bytes().take(n as int));
        assert(s.spec_bytes().subrange(n as int, s.spec_bytes().len() as int) =~= s.spec_bytes().skip(n as int));
    }
    r
}

/// Splits `s` before byte `n`, which is ASCII.
fn split_at_ascii<'a>(s: &'a str, n: usize) -> (r: (&'a str, &'a str))
    requires
        n < s.spec_bytes().len(),
        s.spec_bytes()[n as int] < 0x80,
    ensures
        r.0.spec_bytes() == s.spec_bytes().take(n as int),
        r.1.spec_bytes() == s.spec_bytes().skip(n as int),
{
    proof {
        lemma_ascii_boundaries(s.spec_bytes(), n as int);
    }
    let r = s.split_at(n);
    proof {
        assert(s.spec_bytes().subrange(0, n as int) =~= s.spec_bytes().take(n as int));
        assert(s.spec_bytes().subrange(n as int, s.spec_bytes().len() as int) =~= s.spec_bytes().skip(n as int));
    }
    r
}

} // verus!
