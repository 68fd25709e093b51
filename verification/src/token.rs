//! Tokens: what the lexer hands out.

use vstd::prelude::*;
use vstd::string::*;

use crate::keyword::Keyword;
use crate::symbol::Symbol;

verus! {

/// The piece of the source text that a token was read from.
#[derive(Clone, Copy, Debug, PartialEq, Eq)]
pub struct Span<'i>(pub &'i str);

/// A string literal as it stands between its delimiters.
///
/// Escape sequences are kept as they are written in the source text.
#[derive(Clone, Copy, Debug, PartialEq, Eq)]
pub enum LiteralString<'i> {
    /// The text between the quotes of a `"..."` or `'...'` string.
    Short(&'i str),
    /// The text between the long brackets of a `[[...]]`, `[=[...]=]`, ...
    /// string.
    Long(&'i str),
}

/// A numeral.
#[derive(Clone, Debug, PartialEq, Eq)]
pub enum NumericConstant {
    /// A numeral without fractional part (and, for a hexadecimal numeral,
    /// without binary exponent).
    Integer(i64),
    /// Any other numeral, with `text` assembled from its parts as
    /// `grammar::decimal_float_text` and `grammar::hex_float_text` state:
    /// `<int><.frac or 0>[e<exp>]` for a decimal numeral (so `5.` gives
    /// `50`; an exponent that is a sign alone, as in `1.5e+`, is malformed), and
    /// `0x<int>.<frac>p<exp>` for a hexadecimal one, each missing part written
    /// `0`.
    Float { hex: bool, text: Vec<u8> },
}

#[derive(Clone, Debug, PartialEq, Eq)]
pub enum TokenKind<'i> {
    Keyword(Keyword),
    Identifier,
    NumericConstant(NumericConstant),
    LiteralString(LiteralString<'i>),
    Symbol(Symbol),
}

#[derive(Clone, Debug, PartialEq, Eq)]
pub struct Token<'i> {
    pub kind: TokenKind<'i>,
    pub span: Span<'i>,
}

/// The mathematical content of a token kind.
pub enum KindView {
    Keyword(Keyword),
    Identifier,
    Integer(i64),
    Float { hex: bool, text: Seq<u8> },
    ShortString(Seq<u8>),
    LongString(Seq<u8>),
    Symbol(Symbol),
}

/// A token as a kind and the bytes of source text it was read from.
pub struct Lexeme {
    pub kind: KindView,
    pub text: Seq<u8>,
}

impl<'i> View for TokenKind<'i> {
    type V = KindView;

    open spec fn view(&self) -> KindView {
        match self {
            TokenKind::Keyword(k) => KindView::Keyword(*k),
            TokenKind::Identifier => KindView::Identifier,
            TokenKind::NumericConstant(NumericConstant::Integer(v)) => KindView::Integer(*v),
            TokenKind::NumericConstant(NumericConstant::Float { hex, text }) => KindView::Float {
                hex: *hex,
                text: text@,
            },
            TokenKind::LiteralString(LiteralString::Short(s)) => KindView::ShortString(
                s.spec_bytes(),
            ),
            TokenKind::LiteralString(LiteralString::Long(s)) => KindView::LongString(
                s.spec_bytes(),
            ),
            TokenKind::Symbol(s) => KindView::Symbol(*s),
        }
    }
}

impl<'i> View for Token<'i> {
    type V = Lexeme;

    open spec fn view(&self) -> Lexeme {
        Lexeme { kind: self.kind@, text: self.span.0.spec_bytes() }
    }
}

impl<'i> Token<'i> {
    pub fn new(kind: TokenKind<'i>, span: Span<'i>) -> (t: Token<'i>)
        ensures
            t.kind == kind,
            t.span == span,
    {
        Token { kind, span }
    }
}

} // verus!
