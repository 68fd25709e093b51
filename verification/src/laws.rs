//! What holds of the lexer as a whole.

use vstd::prelude::*;
use vstd::utf8::*;

use crate::bytes::{
    digits_value, in_class, is_ident_char, is_ident_start, is_white_space, run_len,
    white_space_prefix_len, ByteClass, lemma_run_len_bounds, lemma_run_len_take,
    lemma_white_space_prefix_len,
};
use crate::grammar::{
    decimal_int_end, hex_int_end, is_quote, lemma_decimal_layout, lemma_hex_layout,
    lemma_long_bracket_close_bounds, lemma_short_string_close_bounds, long_bracket_close,
    opening_long_bracket, scan_identifier, scan_long_string, scan_numeric, scan_short_string,
    short_string_close, starts_hex,
};
use crate::keyword::{keyword_of, keyword_spelling, lemma_keyword_of};
use crate::symbol::{lemma_scan_symbol, symbol_spelling};
use crate::token::{KindView, Lexeme};
use crate::grammar::{
    first_token, scan_comment, CommentScan, lemma_scan_comment_bounds, lex_all, lex_step,
    trivia_len, Scan, Step, lemma_lex_step_bounds, lemma_trivia_len_bounds,
    lemma_first_token_bounds,
};

verus! {

/// A white-space byte in front of a white-space character or a comment
/// counts as one more byte of white space.
proof fn lemma_trivia_after_space(c: u8, b: Seq<u8>)
    requires
        (0x09 <= c <= 0x0D) || c == 0x20,
    ensures
        trivia_len(seq![c] + b) == match trivia_len(b) {
            Some(t) => Some(t + 1),
            None => None::<nat>,
        },
{
    let cb = seq![c] + b;
    assert((c & 0x7F) == c) by (bit_vector)
        requires
            c < 0x80,
    ;
    assert(cb[0] == c);
    assert(valid_first_scalar(cb));
    assert(decode_first_scalar(cb) == c as u32);
    assert(is_white_space(decode_first_scalar(cb)));
    assert(cb.skip(1) =~= b);
    assert(white_space_prefix_len(cb) == 1 + white_space_prefix_len(b));
    let w = white_space_prefix_len(b);
    lemma_white_space_prefix_len(b);
    assert(cb.skip((1 + w) as int) =~= b.skip(w as int));
    if w == 0 {
        assert(b.skip(0) =~= b);
    }
}

/// White space in front of the text does not change its tokens: lexing
/// `c` followed by `b`, for an ASCII white-space byte `c`, gives the same
/// tokens as lexing `b`, and fails exactly when lexing `b` fails.
pub proof fn law_leading_white_space(c: u8, b: Seq<u8>)
    requires
        (0x09 <= c <= 0x0D) || c == 0x20,
    ensures
        lex_all(seq![c] + b) == lex_all(b),
{
    let cb = seq![c] + b;
    lemma_trivia_after_space(c, b);
    lemma_lex_step_bounds(b);
    lemma_lex_step_bounds(cb);
    lemma_trivia_len_bounds(b);
    match trivia_len(b) {
        Some(t) => {
            assert(cb.skip((t + 1) as int) =~= b.skip(t as int));
            match first_token(b.skip(t as int)) {
                Scan::Match(k, n) => {
                    lemma_first_token_bounds(b.skip(t as int));
                    assert(cb.skip((t + 1 + n) as int) =~= b.skip((t + n) as int));
                },
                _ => {},
            }
        },
        None => {},
    }
}

/// An opening long bracket of level `k`: `[`, `k` times `=`, `[`.
pub open spec fn long_open(k: nat) -> Seq<u8> {
    seq!['[' as u8] + Seq::new(k, |i: int| '=' as u8) + seq!['[' as u8]
}

/// A closing long bracket of level `k`: `]`, `k` times `=`, `]`.
pub open spec fn long_close(k: nat) -> Seq<u8> {
    seq![']' as u8] + Seq::new(k, |i: int| '=' as u8) + seq![']' as u8]
}

/// A lexeme agrees with its text: a keyword or a symbol is spelled as such;
/// an identifier is a word that is no keyword; a string is its contents
/// between the delimiters; an integer is the value of the digits its text
/// starts with; a float is hexadecimal when its text starts with `0x`.
pub open spec fn well_spelled(x: Lexeme) -> bool {
    let t = x.text;
    match x.kind {
        KindView::Keyword(k) => t == keyword_spelling(k),
        KindView::Identifier => {
            &&& t.len() > 0
            &&& is_ident_start(t[0])
            &&& forall|j: int| 0 <= j < t.len() ==> #[trigger] is_ident_char(t[j])
            &&& keyword_of(t) is None
        },
        KindView::Symbol(s) => t == symbol_spelling(s),
        KindView::ShortString(c) => t.len() >= 2 && is_quote(t[0]) && t == seq![t[0]] + c + seq![
            t[0],
        ],
        KindView::LongString(c) => exists|k: nat| t == long_open(k) + c + long_close(k),
        KindView::Integer(v) => if starts_hex(t) {
            v == digits_value(t.subrange(2, 2 + run_len(t, 2, ByteClass::HexDigit) as int), true)
        } else {
            v == digits_value(t.take(run_len(t, 0, ByteClass::Digit) as int), false)
        },
        KindView::Float { hex, text } => hex == starts_hex(t),
    }
}

proof fn lemma_identifier_spelled(r: Seq<u8>)
    ensures
        scan_identifier(r) matches Scan::Match(k, n) ==> well_spelled(
            Lexeme { kind: k, text: r.take(n as int) },
        ),
{
    if let Scan::Match(k, n) = scan_identifier(r) {
        let t = r.take(n as int);
        lemma_run_len_bounds(r, 0, ByteClass::IdentChar);
        lemma_keyword_of(t);
        assert forall|j: int| 0 <= j < t.len() implies #[trigger] is_ident_char(t[j]) by {
            assert(in_class(r[j], ByteClass::IdentChar));
        }
    }
}

proof fn lemma_numeric_spelled(r: Seq<u8>)
    ensures
        scan_numeric(r) matches Scan::Match(k, n) ==> well_spelled(
            Lexeme { kind: k, text: r.take(n as int) },
        ),
{
    if let Scan::Match(k, n) = scan_numeric(r) {
        let t = r.take(n as int);
        if starts_hex(r) {
            lemma_hex_layout(r);
            let ie = hex_int_end(r);
            assert(starts_hex(t));
            if let KindView::Integer(v) = k {
                lemma_run_len_bounds(r, 2, ByteClass::HexDigit);
                lemma_run_len_take(r, n as int, 2, ByteClass::HexDigit);
                assert(t.subrange(2, 2 + run_len(t, 2, ByteClass::HexDigit) as int) =~= r.subrange(2, ie));
            }
        } else {
            lemma_decimal_layout(r);
            assert(!starts_hex(t));
            if let KindView::Integer(v) = k {
                lemma_run_len_bounds(r, 0, ByteClass::Digit);
                lemma_run_len_take(r, n as int, 0, ByteClass::Digit);
                assert(t.take(run_len(t, 0, ByteClass::Digit) as int) =~= r.take(
                    decimal_int_end(r),
                ));
            }
        }
    }
}

proof fn lemma_strings_spelled(r: Seq<u8>)
    ensures
        scan_short_string(r) matches Scan::Match(k, n) ==> well_spelled(
            Lexeme { kind: k, text: r.take(n as int) },
        ),
        scan_long_string(r) matches Scan::Match(k, n) ==> well_spelled(
            Lexeme { kind: k, text: r.take(n as int) },
        ),
{
    if let Scan::Match(k, n) = scan_short_string(r) {
        lemma_short_string_close_bounds(r, r[0], 2);
        let j = short_string_close(r, r[0], 2)->0;
        let t = r.take(n as int);
        assert(t =~= seq![t[0]] + r.subrange(1, j) + seq![t[0]]);
    }
    if let Scan::Match(k, n) = scan_long_string(r) {
        let lv = opening_long_bracket(r)->0;
        lemma_run_len_bounds(r, 1, ByteClass::Equals);
        lemma_long_bracket_close_bounds(r, lv + 2 as int, lv);
        let e = long_bracket_close(r, lv + 2 as int, lv)->0;
        let t = r.take(n as int);
        let c = r.subrange(lv + 2 as int, e - (lv + 2));
        assert forall|j: int| 1 <= j < 1 + lv implies r[j] == '=' as u8 by {
            assert(in_class(r[j], ByteClass::Equals));
        }
        assert(t =~= long_open(lv) + c + long_close(lv));
    }
}

/// The lexeme that `first_token` finds agrees with its text.
pub proof fn lemma_first_token_spelled(r: Seq<u8>)
    ensures
        first_token(r) matches Scan::Match(k, n) ==> well_spelled(
            Lexeme { kind: k, text: r.take(n as int) },
        ),
{
    lemma_identifier_spelled(r);
    lemma_numeric_spelled(r);
    lemma_strings_spelled(r);
    lemma_scan_symbol(r);
}

/// Every token of a text agrees with its text: keywords and symbols are
/// spelled as such, identifiers are words that are no keyword, strings are
/// their contents between their delimiters, integers are the value of their
/// digits.
pub proof fn law_tokens_well_spelled(b: Seq<u8>)
    requires
        lex_all(b) is Some,
    ensures
        forall|i: int| 0 <= i < lex_all(b)->0.len() ==> well_spelled(#[trigger] lex_all(b)->0[i]),
    decreases b.len(),
{
    lemma_lex_step_bounds(b);
    if let Step::Token(x, s, e) = lex_step(b) {
        law_tokens_well_spelled(b.skip(e as int));
        let t = trivia_len(b)->0;
        lemma_first_token_spelled(b.skip(t as int));
        let ts = lex_all(b)->0;
        let rest = lex_all(b.skip(e as int))->0;
        assert(ts == seq![x] + rest);
        assert forall|i: int| 0 <= i < ts.len() implies well_spelled(#[trigger] ts[i]) by {
            if i > 0 {
                assert(ts[i] == rest[i - 1]);
            }
        }
    }
}

/// Where the text of each token of `b` starts and ends in `b`.
pub open spec fn token_bounds(b: Seq<u8>) -> Seq<(int, int)>
    decreases b.len(),
{
    proof {
        lemma_lex_step_bounds(b);
    }
    match lex_step(b) {
        Step::Token(x, s, e) => seq![(s as int, e as int)] + token_bounds(b.skip(e as int)).map_values(
            |p: (int, int)| (p.0 + e, p.1 + e),
        ),
        _ => seq![],
    }
}

/// Where the white space and comments that follow the `i`-th token end:
/// at the start of the next token, or at the end of the text.
pub open spec fn gap_end(b: Seq<u8>, bs: Seq<(int, int)>, i: int) -> int {
    if i + 1 < bs.len() {
        bs[i + 1].0
    } else {
        b.len() as int
    }
}

/// The lexemes `ts` lie in `b` at the bounds `bs`, in order, without
/// overlap.
pub open spec fn texts_at(b: Seq<u8>, ts: Seq<Lexeme>, bs: Seq<(int, int)>) -> bool {
    &&& bs.len() == ts.len()
    &&& forall|i: int|
        #![trigger gap_end(b, bs, i)]
        0 <= i < bs.len() ==> 0 <= bs[i].0 < bs[i].1 <= gap_end(b, bs, i) <= b.len()
    &&& forall|i: int|
        0 <= i < bs.len() ==> (#[trigger] ts[i]).text == b.subrange(bs[i].0, bs[i].1)
}

/// What lies after each bound of `bs` up to the next one, or up to the end
/// of `b`, is `gap` long by `gap`'s measure.
pub open spec fn gaps_after(
    b: Seq<u8>,
    bs: Seq<(int, int)>,
    gap: spec_fn(Seq<u8>) -> Option<nat>,
) -> bool {
    forall|i: int|
        0 <= i < bs.len() ==> gap(b.skip(#[trigger] bs[i].1)) == Some(
            (gap_end(b, bs, i) - bs[i].1) as nat,
        )
}

/// The lexemes `ts` lie in `b` at the bounds `bs`, in order, with only
/// white space and comments before, between and after them.
pub open spec fn covers(b: Seq<u8>, ts: Seq<Lexeme>, bs: Seq<(int, int)>) -> bool {
    &&& texts_at(b, ts, bs)
    &&& trivia_len(b) == Some(gap_end(b, bs, -1) as nat)
    &&& gaps_after(b, bs, |c: Seq<u8>| trivia_len(c))
}

/// The bounds of the tokens after a first one, moved past it.
pub open spec fn shifted(s: int, e: int, rbs: Seq<(int, int)>) -> Seq<(int, int)> {
    seq![(s, e)] + rbs.map_values(|p: (int, int)| (p.0 + e, p.1 + e))
}

proof fn lemma_shifted(s: int, e: int, rbs: Seq<(int, int)>, b: Seq<u8>)
    requires
        0 <= e <= b.len(),
    ensures
        shifted(s, e, rbs).len() == rbs.len() + 1,
        shifted(s, e, rbs)[0] == (s, e),
        gap_end(b, shifted(s, e, rbs), -1) == s,
        gap_end(b, shifted(s, e, rbs), 0) == gap_end(b.skip(e), rbs, -1) + e,
        forall|i: int|
            0 < i < rbs.len() + 1 ==> #[trigger] shifted(s, e, rbs)[i] == (rbs[i - 1].0 + e, rbs[i
                - 1].1 + e) && gap_end(b, shifted(s, e, rbs), i) == gap_end(b.skip(e), rbs, i - 1)
                + e,
{
}

/// One token in front of lexemes that lie in the rest of the text.
proof fn lemma_texts_step(b: Seq<u8>, x: Lexeme, s: int, e: int, rts: Seq<Lexeme>, rbs: Seq<(int, int)>)
    requires
        0 <= s < e <= b.len(),
        x.text == b.subrange(s, e),
        0 <= gap_end(b.skip(e), rbs, -1) <= b.len() - e,
        texts_at(b.skip(e), rts, rbs),
    ensures
        texts_at(b, seq![x] + rts, shifted(s, e, rbs)),
{
    let rest = b.skip(e);
    let ts = seq![x] + rts;
    let bs = shifted(s, e, rbs);
    lemma_shifted(s, e, rbs, b);
    assert forall|i: int| 0 <= i < bs.len() implies 0 <= bs[i].0 < bs[i].1 <= #[trigger] gap_end(
        b,
        bs,
        i,
    ) <= b.len() by {
        if i > 0 {
            assert(bs[i] == (rbs[i - 1].0 + e, rbs[i - 1].1 + e));
            assert(gap_end(rest, rbs, i - 1) + e == gap_end(b, bs, i));
        }
    }
    assert forall|i: int| 0 <= i < bs.len() implies (#[trigger] ts[i]).text == b.subrange(
        bs[i].0,
        bs[i].1,
    ) by {
        if i > 0 {
            let p = rbs[i - 1];
            assert(bs[i] == (p.0 + e, p.1 + e));
            assert(ts[i] == rts[i - 1]);
            assert(gap_end(rest, rbs, i - 1) >= 0);
            lemma_skip_subrange(b, e, p.0, p.1);
        }
    }
}

/// A piece of what follows the first `e` bytes is a piece of the whole.
proof fn lemma_skip_subrange(b: Seq<u8>, e: int, lo: int, hi: int)
    requires
        0 <= e <= b.len(),
        0 <= lo <= hi <= b.len() - e,
    ensures
        b.skip(e).subrange(lo, hi) == b.subrange(lo + e, hi + e),
{
    assert(b.skip(e).subrange(lo, hi) =~= b.subrange(lo + e, hi + e));
}

/// One gap in front of the gaps of the rest of the text.
proof fn lemma_gaps_step(
    b: Seq<u8>,
    s: int,
    e: int,
    rbs: Seq<(int, int)>,
    gap: spec_fn(Seq<u8>) -> Option<nat>,
)
    requires
        0 <= s < e <= b.len(),
        forall|i: int| 0 <= i < rbs.len() ==> 0 <= #[trigger] rbs[i].1 <= b.len() - e,
        gap(b.skip(e)) == Some(gap_end(b.skip(e), rbs, -1) as nat),
        gaps_after(b.skip(e), rbs, gap),
    ensures
        gaps_after(b, shifted(s, e, rbs), gap),
{
    let rest = b.skip(e);
    let bs = shifted(s, e, rbs);
    lemma_shifted(s, e, rbs, b);
    assert forall|i: int| 0 <= i < bs.len() implies gap(b.skip(#[trigger] bs[i].1)) == Some(
        (gap_end(b, bs, i) - bs[i].1) as nat,
    ) by {
        if i > 0 {
            let p = rbs[i - 1];
            assert(gap(rest.skip(p.1)) == Some((gap_end(rest, rbs, i - 1) - p.1) as nat));
            assert(rest.skip(p.1) =~= b.skip(p.1 + e));
        }
    }
}

/// The tokens of a text are pieces of it, in order and without overlap, and
/// what lies before, between and after them is white space and comments
/// only: the text of the `i`-th token is the source text from
/// `token_bounds(b)[i].0` to `token_bounds(b)[i].1`.
pub proof fn law_tokens_cover_source(b: Seq<u8>)
    requires
        lex_all(b) is Some,
    ensures
        covers(b, lex_all(b)->0, token_bounds(b)),
    decreases b.len(),
{
    lemma_lex_step_bounds(b);
    lemma_trivia_len_bounds(b);
    match lex_step(b) {
        Step::Token(x, s, e) => {
            let rest = b.skip(e as int);
            law_tokens_cover_source(rest);
            let t = trivia_len(b)->0;
            lemma_first_token_bounds(b.skip(t as int));
            assert(b.subrange(s as int, e as int) =~= b.skip(t as int).take((e - s) as int));
            let rts = lex_all(rest)->0;
            let rbs = token_bounds(rest);
            assert(token_bounds(b) == shifted(s as int, e as int, rbs));
            if rbs.len() > 0 {
                assert(gap_end(rest, rbs, 0) <= rest.len());
            }
            lemma_texts_step(b, x, s as int, e as int, rts, rbs);
            assert forall|i: int| 0 <= i < rbs.len() implies 0 <= #[trigger] rbs[i].1 <= b.len() - e by {
                assert(gap_end(rest, rbs, i) <= rest.len());
            }
            if rbs.len() > 0 {
                assert(gap_end(rest, rbs, 0) <= rest.len());
            }
            lemma_gaps_step(b, s as int, e as int, rbs, |c: Seq<u8>| trivia_len(c));
        },
        _ => {
            assert(gap_end(b, token_bounds(b), -1) == b.len());
        },
    }
}

/// Skipping white space twice skips nothing the second time.
pub proof fn law_white_space_skip_idempotent(b: Seq<u8>)
    ensures
        white_space_prefix_len(b.skip(white_space_prefix_len(b) as int)) == 0,
    decreases b.len(),
{
    lemma_white_space_prefix_len(b);
    if b.len() > 0 && valid_first_scalar(b) && is_white_space(decode_first_scalar(b)) {
        let l = length_of_first_scalar(b);
        let rest = b.skip(l);
        law_white_space_skip_idempotent(rest);
        lemma_white_space_prefix_len(rest);
        assert(b.skip(white_space_prefix_len(b) as int) =~= rest.skip(
            white_space_prefix_len(rest) as int,
        ));
    } else {
        assert(b.skip(0) =~= b);
    }
}

/// After the white space and comments at the front of a text, neither white
/// space nor a comment starts.
pub proof fn law_trivia_skipped_entirely(b: Seq<u8>)
    requires
        trivia_len(b) is Some,
    ensures
        white_space_prefix_len(b.skip(trivia_len(b)->0 as int)) == 0,
        scan_comment(b.skip(trivia_len(b)->0 as int)) is NotComment,
    decreases b.len(),
{
    lemma_white_space_prefix_len(b);
    lemma_scan_comment_bounds(b);
    let w = white_space_prefix_len(b);
    if w > 0 {
        let rest = b.skip(w as int);
        law_trivia_skipped_entirely(rest);
        lemma_trivia_len_bounds(rest);
        assert(b.skip(trivia_len(b)->0 as int) =~= rest.skip(trivia_len(rest)->0 as int));
    } else {
        match scan_comment(b) {
            CommentScan::Skip(n) => {
                let rest = b.skip(n as int);
                law_trivia_skipped_entirely(rest);
                lemma_trivia_len_bounds(rest);
                assert(b.skip(trivia_len(b)->0 as int) =~= rest.skip(trivia_len(rest)->0 as int));
            },
            _ => {
                assert(b.skip(0) =~= b);
            },
        }
    }
}

/// One step of the lexer reads a token whose text is a non-empty piece of
/// the text, right after the white space and comments in front of it, and
/// leaves what follows it; where no token starts, it skips only white space
/// and comments.
pub proof fn law_one_step(b: Seq<u8>)
    ensures
        lex_step(b) matches Step::Token(x, s, e) ==> {
            &&& 0 <= s < e <= b.len()
            &&& x.text == b.subrange(s as int, e as int)
            &&& trivia_len(b) == Some(s)
            &&& x.text + b.skip(e as int) == b.skip(s as int)
        },
        lex_step(b) matches Step::Finished(t) ==> t <= b.len() && trivia_len(b) == Some(t),
{
    lemma_lex_step_bounds(b);
    lemma_trivia_len_bounds(b);
    if let Step::Token(x, s, e) = lex_step(b) {
        lemma_first_token_bounds(b.skip(s as int));
        assert(x.text =~= b.subrange(s as int, e as int));
        assert(x.text + b.skip(e as int) =~= b.skip(s as int));
    }
}

} // verus!
