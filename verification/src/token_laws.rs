//! What the lexer makes of a text that is one token: a word, a hexadecimal
//! integer, a decimal numeral with point and exponent, a quoted string, a
//! long-bracket string. The forms are stated here by ASCII ranges, and the
//! expected tokens by standard arithmetic, apart from the scanners.

use vstd::prelude::*;
use vstd::utf8::*;

use crate::bytes::{
    digit_value, digits_value, in_class, is_white_space, run_len, white_space_prefix_len,
    ByteClass, lemma_ascii_boundaries, lemma_run_len_bounds,
};
use crate::grammar::{
    backslashes_before, decimal_end, decimal_exp_digits_start, decimal_exp_end,
    decimal_exp_sign_only, decimal_exp_text, decimal_frac_digits, decimal_frac_end,
    decimal_has_exponent, decimal_int_digits,
    decimal_float_text, first_token, hex_frac_end, hex_has_exponent, hex_has_point, hex_int_digits,
    hex_int_end, lex_all, lex_step, long_bracket_close, opening_long_bracket, scan_comment,
    scan_identifier, scan_long_string, scan_numeric, scan_short_string,
    short_string_close, starts_decimal, starts_hex, trivia_len, CommentScan, Scan, Step,
    lemma_lex_step_bounds,
};
use crate::keyword::{keyword_of, keyword_spelling, Keyword, lemma_keyword_of};
use crate::laws::{long_close, long_open};
use crate::symbol::{lemma_symbol_spelling, scan_symbol, starts_with_symbol, Symbol};
use crate::token::{KindView, Lexeme};

verus! {

// ----- the forms, by ASCII ranges -----

pub open spec fn ascii_letter(c: u8) -> bool {
    ('a' as u8 <= c && c <= 'z' as u8) || ('A' as u8 <= c && c <= 'Z' as u8)
}

pub open spec fn ascii_digit(c: u8) -> bool {
    '0' as u8 <= c && c <= '9' as u8
}

pub open spec fn ascii_hex_digit(c: u8) -> bool {
    ascii_digit(c) || ('a' as u8 <= c && c <= 'f' as u8) || ('A' as u8 <= c && c <= 'F' as u8)
}

/// The standard value of a hexadecimal digit: `0`-`9` are 0 to 9, `a`-`f`
/// and `A`-`F` are 10 to 15.
pub open spec fn hex_digit_number(c: u8) -> nat {
    if ascii_digit(c) {
        (c as int - '0' as int) as nat
    } else if 'a' as u8 <= c && c <= 'f' as u8 {
        (c as int - 'a' as int + 10) as nat
    } else {
        (c as int - 'A' as int + 10) as nat
    }
}

/// The number that the hexadecimal digits `h` denote in base 16.
pub open spec fn hex_number(h: Seq<u8>) -> nat
    decreases h.len(),
{
    if h.len() == 0 {
        0
    } else {
        hex_number(h.drop_last()) * 16 + hex_digit_number(h.last())
    }
}

/// A word: a letter or `_`, then letters, digits and `_`.
pub open spec fn is_word(w: Seq<u8>) -> bool {
    &&& w.len() > 0
    &&& (ascii_letter(w[0]) || w[0] == '_' as u8)
    &&& forall|j: int| 0 <= j < w.len() ==> (ascii_letter(#[trigger] w[j]) || ascii_digit(w[j])
        || w[j] == '_' as u8)
}

pub open spec fn all_digits(s: Seq<u8>) -> bool {
    forall|j: int| 0 <= j < s.len() ==> ascii_digit(#[trigger] s[j])
}

/// `s` holds no closing long bracket of level `k` that starts inside `c`,
/// where `s` is `c` followed by that closing bracket.
pub open spec fn no_close_inside(c: Seq<u8>, k: nat) -> bool {
    forall|j: int|
        0 <= j < c.len() ==> #[trigger] (c + long_close(k)).subrange(j, j + k + 2) != long_close(k)
}

// ----- helpers -----

/// The run of bytes of class `k` from `i` ends at `j`.
proof fn lemma_run_len_exact(b: Seq<u8>, i: int, j: int, k: ByteClass)
    requires
        0 <= i <= j <= b.len(),
        forall|m: int| i <= m < j ==> in_class(#[trigger] b[m], k),
        j == b.len() || !in_class(b[j], k),
    ensures
        run_len(b, i, k) == j - i,
    decreases j - i,
{
    if i < j {
        lemma_run_len_exact(b, i + 1, j, k);
    }
}

/// The empty text lexes to no tokens.
proof fn lemma_lex_all_empty(e: Seq<u8>)
    requires
        e.len() == 0,
    ensures
        lex_all(e) == Some(Seq::<Lexeme>::empty()),
{
    assert(white_space_prefix_len(e) == 0);
    assert(scan_comment(e) == CommentScan::NotComment);
    assert(trivia_len(e) == Some(0nat));
    assert(e.skip(0) =~= e);
    assert forall|s: Symbol| !starts_with_symbol(e, s) by {
        lemma_symbol_spelling(s);
    }
    assert(scan_symbol(e) is None);
    assert(first_token(e) == Scan::NoMatch);
    assert(lex_step(e) == Step::Finished(0));
}

/// A text that starts with an ASCII byte that is neither white space nor
/// `-`, and whose first token takes all of it, lexes to that one token.
proof fn lemma_whole_token(b: Seq<u8>, k: KindView)
    requires
        b.len() > 0,
        b[0] < 0x80,
        !(0x09 <= b[0] <= 0x0D),
        b[0] != 0x20,
        b[0] != '-' as u8,
        first_token(b) == Scan::Match(k, b.len()),
    ensures
        lex_all(b) == Some(seq![Lexeme { kind: k, text: b }]),
{
    let c = b[0];
    assert((c & 0x7F) == c) by (bit_vector)
        requires
            c < 0x80,
    ;
    assert(valid_first_scalar(b));
    assert(decode_first_scalar(b) == c as u32);
    assert(!is_white_space(decode_first_scalar(b)));
    assert(white_space_prefix_len(b) == 0);
    assert(scan_comment(b) == CommentScan::NotComment);
    assert(trivia_len(b) == Some(0nat));
    assert(b.skip(0) =~= b);
    assert(b.take(b.len() as int) =~= b);
    lemma_lex_step_bounds(b);
    assert(lex_step(b) == Step::Token(Lexeme { kind: k, text: b }, 0, b.len()));
    lemma_lex_all_empty(b.skip(b.len() as int));
    assert(seq![Lexeme { kind: k, text: b }] + Seq::<Lexeme>::empty() =~= seq![
        Lexeme { kind: k, text: b },
    ]);
}

/// The crate's digit values are the standard ones.
proof fn lemma_hex_value(h: Seq<u8>)
    requires
        forall|j: int| 0 <= j < h.len() ==> ascii_hex_digit(#[trigger] h[j]),
    ensures
        digits_value(h, true) == hex_number(h),
    decreases h.len(),
{
    if h.len() > 0 {
        lemma_hex_value(h.drop_last());
        assert(ascii_hex_digit(h[h.len() - 1]));
        assert(digit_value(h.last()) == hex_digit_number(h.last()));
    }
}

/// The search for the closing quote from `j` finds the first quote at or
/// after `j`, where no backslash precedes it.
proof fn lemma_quote_close(b: Seq<u8>, q: u8, j: int, p: int)
    requires
        0 <= j <= p < b.len(),
        forall|m: int| j <= m < p ==> #[trigger] b[m] != q,
        b[p] == q,
        backslashes_before(b, p) % 2 == 0,
    ensures
        short_string_close(b, q, j) == Some(p),
    decreases p - j,
{
    if j < p {
        lemma_quote_close(b, q, j + 1, p);
    }
}

/// The bytes of a closing long bracket.
proof fn lemma_long_close_bytes(k: nat)
    ensures
        long_close(k).len() == k + 2,
        long_close(k)[0] == ']' as u8,
        long_close(k)[k as int + 1] == ']' as u8,
        forall|t: int| 1 <= t <= k ==> #[trigger] long_close(k)[t] == '=' as u8,
{
}

/// The bytes of an opening long bracket.
proof fn lemma_long_open_bytes(k: nat)
    ensures
        long_open(k).len() == k + 2,
        long_open(k)[0] == '[' as u8,
        long_open(k)[k as int + 1] == '[' as u8,
        forall|t: int| 1 <= t <= k ==> #[trigger] long_open(k)[t] == '=' as u8,
{
}

/// A closing long bracket of level `k` starts at `j` in `b`.
pub open spec fn closes_at(b: Seq<u8>, j: int, k: nat) -> bool {
    0 <= j && j + k + 2 <= b.len() && b.subrange(j, j + k + 2) == long_close(k)
}

/// The search for a closing long bracket from `i` ends at the first one that
/// starts at or after `i`.
proof fn lemma_long_close_first(b: Seq<u8>, i: int, k: nat, p: int)
    requires
        0 <= i <= p,
        closes_at(b, p, k),
        forall|j: int| i <= j < p ==> !#[trigger] closes_at(b, j, k),
    ensures
        long_bracket_close(b, i, k) == Some(p + k + 2),
    decreases p - i,
{
    lemma_long_close_bytes(k);
    assert(b[p] == long_close(k)[0]);
    if b[i] != ']' as u8 {
        lemma_long_close_first(b, i + 1, k, p);
    } else {
        let c = i + 1;
        lemma_run_len_bounds(b, c, ByteClass::Equals);
        let cnt = run_len(b, c, ByteClass::Equals);
        let d = c + cnt;
        if i == p {
            assert forall|m: int| c <= m < c + k implies in_class(#[trigger] b[m], ByteClass::Equals) by {
                assert(b[m] == long_close(k)[m - p]);
            }
            assert(b[c + k] == long_close(k)[k as int + 1]);
            lemma_run_len_exact(b, c, c + k, ByteClass::Equals);
        } else {
            if cnt == k && d < b.len() && b[d] == ']' as u8 {
                assert forall|t: int| 0 <= t < k + 2 implies #[trigger] b.subrange(i, i + k + 2)[t]
                    == long_close(k)[t] by {
                    if 1 <= t <= k {
                        assert(in_class(b[i + t], ByteClass::Equals));
                    }
                }
                assert(b.subrange(i, i + k + 2) =~= long_close(k));
                assert(closes_at(b, i, k));
                assert(false);
            }
            if d > p {
                assert(in_class(b[p], ByteClass::Equals));
            }
            lemma_long_close_first(b, d, k, p);
        }
    }
}

// ----- the laws -----

/// `0x` (or `0X`) followed by hexadecimal digits whose number fits in an
/// `i64` is one integer token, whose value is that number in base 16 with
/// the standard digit values (`0x1a` is 26, `0xFF` is 255).
pub proof fn law_hex_integer(x: u8, h: Seq<u8>)
    requires
        x == 'x' as u8 || x == 'X' as u8,
        h.len() > 0,
        forall|j: int| 0 <= j < h.len() ==> ascii_hex_digit(#[trigger] h[j]),
        hex_number(h) <= i64::MAX,
    ensures
        lex_all(seq!['0' as u8, x] + h) == Some(
            seq![
                Lexeme {
                    kind: KindView::Integer(hex_number(h) as i64),
                    text: seq!['0' as u8, x] + h,
                },
            ],
        ),
{
    let b = seq!['0' as u8, x] + h;
    assert forall|m: int| 2 <= m < b.len() implies in_class(#[trigger] b[m], ByteClass::HexDigit) by {
        assert(b[m] == h[m - 2]);
        assert(ascii_hex_digit(h[m - 2]));
    }
    lemma_run_len_exact(b, 2, b.len() as int, ByteClass::HexDigit);
    assert(hex_int_end(b) == b.len());
    assert(!hex_has_point(b));
    assert(hex_frac_end(b) == b.len());
    assert(!hex_has_exponent(b));
    assert(hex_int_digits(b) =~= h);
    lemma_hex_value(h);
    assert(starts_hex(b));
    assert(scan_numeric(b) == Scan::Match(KindView::Integer(hex_number(h) as i64), b.len()));
    assert(scan_identifier(b) == Scan::NoMatch);
    lemma_whole_token(b, KindView::Integer(hex_number(h) as i64));
}

/// A word is one token whose text is the whole word: the keyword it spells
/// when it is a reserved word, an identifier otherwise.
pub proof fn law_word(w: Seq<u8>)
    requires
        is_word(w),
    ensures
        lex_all(w) matches Some(ts) && ts.len() == 1 && ts[0].text == w && match ts[0].kind {
            KindView::Keyword(k) => keyword_spelling(k) == w,
            KindView::Identifier => forall|k: Keyword| keyword_spelling(k) != w,
            _ => false,
        },
{
    assert forall|m: int| 0 <= m < w.len() implies in_class(#[trigger] w[m], ByteClass::IdentChar) by {
        assert(ascii_letter(w[m]) || ascii_digit(w[m]) || w[m] == '_' as u8);
    }
    lemma_run_len_exact(w, 0, w.len() as int, ByteClass::IdentChar);
    assert(w.take(w.len() as int) =~= w);
    lemma_keyword_of(w);
    let k = match keyword_of(w) {
        Some(kw) => KindView::Keyword(kw),
        None => KindView::Identifier,
    };
    assert(scan_identifier(w) == Scan::Match(k, w.len()));
    lemma_whole_token(w, k);
}

/// A quote, then a non-empty text with neither that quote nor a backslash,
/// then the same quote, is one string token: its contents are that text,
/// and its text is the whole input.
pub proof fn law_short_string(q: u8, c: Seq<u8>)
    requires
        q == '"' as u8 || q == '\'' as u8,
        c.len() > 0,
        forall|j: int| 0 <= j < c.len() ==> #[trigger] c[j] != q && c[j] != '\\' as u8,
    ensures
        lex_all(seq![q] + c + seq![q]) == Some(
            seq![Lexeme { kind: KindView::ShortString(c), text: seq![q] + c + seq![q] }],
        ),
{
    let b = seq![q] + c + seq![q];
    let p: int = c.len() as int + 1;
    assert(b[p] == q);
    assert(b[p - 1] == c[c.len() - 1]);
    assert(backslashes_before(b, p) == 0);
    assert forall|m: int| 2 <= m < p implies #[trigger] b[m] != q by {
        assert(b[m] == c[m - 1]);
    }
    lemma_quote_close(b, q, 2, p);
    assert(b.subrange(1, p) =~= c);
    assert(scan_short_string(b) == Scan::Match(KindView::ShortString(c), b.len()));
    assert(scan_identifier(b) == Scan::NoMatch);
    assert(scan_numeric(b) == Scan::NoMatch);
    lemma_whole_token(b, KindView::ShortString(c));
}

/// The scan of a decimal numeral laid out as: digits up to `a`, a point,
/// digits up to `fe`, an exponent mark, an optional sign, and digits from
/// `ds` to the end.
proof fn lemma_decimal_scan(b: Seq<u8>, a: int, fe: int, ds: int)
    requires
        valid_utf8(b),
        0 < a && a + 1 < fe && fe + 1 <= ds < b.len(),
        forall|j: int| 0 <= j < a ==> ascii_digit(#[trigger] b[j]),
        b[a] == '.' as u8,
        forall|j: int| a < j < fe ==> ascii_digit(#[trigger] b[j]),
        b[fe] == 'e' as u8 || b[fe] == 'E' as u8,
        ds == fe + 1 || (ds == fe + 2 && (b[fe + 1] == '+' as u8 || b[fe + 1] == '-' as u8)),
        forall|j: int| ds <= j < b.len() ==> ascii_digit(#[trigger] b[j]),
    ensures
        lex_all(b) == Some(
            seq![
                Lexeme {
                    kind: KindView::Float {
                        hex: false,
                        text: decimal_float_text(
                            b.take(a),
                            b.subrange(a + 1, fe),
                            b.subrange(fe + 1, b.len() as int),
                        ),
                    },
                    text: b,
                },
            ],
        ),
{
    assert forall|j: int| 0 <= j < a implies in_class(#[trigger] b[j], ByteClass::Digit) by {
        assert(ascii_digit(b[j]));
    }
    lemma_run_len_exact(b, 0, a, ByteClass::Digit);
    assert forall|j: int| a + 1 <= j < fe implies in_class(#[trigger] b[j], ByteClass::Digit) by {
        assert(ascii_digit(b[j]));
    }
    lemma_run_len_exact(b, a + 1, fe, ByteClass::Digit);
    assert(decimal_frac_end(b) == fe);
    assert(decimal_has_exponent(b));
    assert(ascii_digit(b[ds]));
    assert(decimal_exp_digits_start(b) == ds);
    assert forall|j: int| ds <= j < b.len() implies in_class(#[trigger] b[j], ByteClass::Digit) by {
        assert(ascii_digit(b[j]));
    }
    lemma_run_len_exact(b, ds, b.len() as int, ByteClass::Digit);
    assert(decimal_exp_end(b) == b.len());
    assert(decimal_end(b) == b.len());
    assert(ascii_digit(b[b.len() - 1]));
    lemma_ascii_boundaries(b, b.len() - 1);
    assert(decimal_int_digits(b) == b.take(a));
    assert(decimal_frac_digits(b) == b.subrange(a + 1, fe));
    assert(decimal_exp_text(b) == b.subrange(fe + 1, b.len() as int));
    let e = decimal_exp_text(b);
    if e.len() == 1 {
        assert(e[0] == b[ds]);
    }
    assert(!decimal_exp_sign_only(b));
    assert(ascii_digit(b[0]));
    if b[0] == '0' as u8 {
        if a >= 2 {
            assert(ascii_digit(b[1]));
        } else {
            assert(b[1] == '.' as u8);
        }
    }
    assert(!starts_hex(b));
    assert(starts_decimal(b));
    assert(scan_identifier(b) == Scan::NoMatch);
    lemma_whole_token(
        b,
        KindView::Float {
            hex: false,
            text: decimal_float_text(
                b.take(a),
                b.subrange(a + 1, fe),
                b.subrange(fe + 1, b.len() as int),
            ),
        },
    );
}

/// A decimal numeral with integer digits, a point, fractional digits, an
/// exponent mark (`e` or `E`), an optional sign and exponent digits is one
/// float token, whose text is the numeral itself with the mark written `e`:
/// the sign and every digit are kept, so the text denotes the same number.
pub proof fn law_decimal_float(i: Seq<u8>, f: Seq<u8>, m: u8, sign: Seq<u8>, d: Seq<u8>)
    requires
        i.len() > 0 && all_digits(i),
        f.len() > 0 && all_digits(f),
        d.len() > 0 && all_digits(d),
        m == 'e' as u8 || m == 'E' as u8,
        sign.len() <= 1,
        sign.len() == 1 ==> sign[0] == '+' as u8 || sign[0] == '-' as u8,
        valid_utf8(i + seq!['.' as u8] + f + seq![m] + sign + d),
    ensures
        lex_all(i + seq!['.' as u8] + f + seq![m] + sign + d) == Some(
            seq![
                Lexeme {
                    kind: KindView::Float {
                        hex: false,
                        text: i + seq!['.' as u8] + f + seq!['e' as u8] + sign + d,
                    },
                    text: i + seq!['.' as u8] + f + seq![m] + sign + d,
                },
            ],
        ),
{
    let b = i + seq!['.' as u8] + f + seq![m] + sign + d;
    let a = i.len() as int;
    let fe = a + 1 + f.len();
    let ds = fe + 1 + sign.len();
    assert(b.len() == ds + d.len());
    assert forall|j: int| 0 <= j < a implies ascii_digit(#[trigger] b[j]) by {
        assert(b[j] == i[j]);
    }
    assert forall|j: int| a < j < fe implies ascii_digit(#[trigger] b[j]) by {
        assert(b[j] == f[j - a - 1]);
    }
    assert forall|j: int| ds <= j < b.len() implies ascii_digit(#[trigger] b[j]) by {
        assert(b[j] == d[j - ds]);
    }
    assert(b[a] == '.' as u8);
    assert(b[fe] == m);
    if sign.len() == 1 {
        assert(b[fe + 1] == sign[0]);
    }
    lemma_decimal_scan(b, a, fe, ds);
    assert(b.take(a) =~= i);
    assert(b.subrange(a + 1, fe) =~= f);
    assert(b.subrange(fe + 1, b.len() as int) =~= sign + d);
    let text = i + seq!['.' as u8] + f + seq!['e' as u8] + sign + d;
    assert(decimal_float_text(i, f, sign + d) =~= text);
}

/// An opening long bracket of level `k`, a text, and the closing long
/// bracket of level `k`, where no closing bracket of that level starts
/// earlier, is one long string token: its contents are that text, and its
/// text is the whole input. The string ends at the first closing bracket of
/// its level.
pub proof fn law_long_string(k: nat, c: Seq<u8>)
    requires
        no_close_inside(c, k),
    ensures
        lex_all(long_open(k) + c + long_close(k)) == Some(
            seq![
                Lexeme {
                    kind: KindView::LongString(c),
                    text: long_open(k) + c + long_close(k),
                },
            ],
        ),
{
    let b = long_open(k) + c + long_close(k);
    let l: int = k as int + 2;
    let p: int = l + c.len();
    lemma_long_open_bytes(k);
    lemma_long_close_bytes(k);
    assert(b.len() == p + l);
    assert forall|m: int| 1 <= m < 1 + k implies in_class(#[trigger] b[m], ByteClass::Equals) by {
        assert(b[m] == long_open(k)[m]);
    }
    assert(b[1 + k as int] == long_open(k)[k as int + 1]);
    lemma_run_len_exact(b, 1, 1 + k as int, ByteClass::Equals);
    assert(opening_long_bracket(b) == Some(k));
    assert(b.subrange(p, p + l) =~= long_close(k));
    assert(closes_at(b, p, k));
    assert forall|j: int| l <= j < p implies !#[trigger] closes_at(b, j, k) by {
        assert(b.subrange(j, j + l) =~= (c + long_close(k)).subrange(j - l, j - l + k + 2));
        assert((c + long_close(k)).subrange(j - l, j - l + k + 2) != long_close(k));
    }
    lemma_long_close_first(b, l, k, p);
    assert(b.subrange(l, p) =~= c);
    assert(scan_long_string(b) == Scan::Match(KindView::LongString(c), b.len()));
    assert(scan_identifier(b) == Scan::NoMatch);
    assert(scan_numeric(b) == Scan::NoMatch);
    assert(scan_short_string(b) == Scan::NoMatch);
    lemma_whole_token(b, KindView::LongString(c));
}

} // verus!
