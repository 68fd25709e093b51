use lualex::keyword::Keyword;
use lualex::lexer::Lexer;
use lualex::lexer_errors::LexerError;
use lualex::symbol::Symbol;
use lualex::token::{LiteralString, NumericConstant, Token, TokenKind};

fn lex(src: &str) -> Vec<Token<'_>> {
    let mut l = Lexer::new(src);
    assert!(Lexer::new(src).try_lex_to_end());
    l.lex_to_end();
    assert_eq!(l.view_len(), 0);
    l.iter_tokens().cloned().collect()
}

fn spans<'a>(ts: &[Token<'a>]) -> Vec<&'a str> {
    ts.iter().map(|t| t.span.0).collect()
}

fn float(hex: bool, text: &str) -> TokenKind<'static> {
    TokenKind::NumericConstant(NumericConstant::Float { hex, text: text.as_bytes().to_vec() })
}

fn integer(v: i64) -> TokenKind<'static> {
    TokenKind::NumericConstant(NumericConstant::Integer(v))
}

fn fails(src: &str) -> bool {
    !Lexer::new(src).try_lex_to_end()
}

#[test]
fn hex_numerals_of_the_example_program() {
    let ts = lex("0x345 0xff 0xBEBADA 0xA3Fb.F31fAp-14");
    let kinds: Vec<_> = ts.iter().map(|t| t.kind.clone()).collect();
    assert_eq!(kinds, vec![integer(0x345), integer(0xff), integer(0xBEBADA), float(true, "0xA3Fb.F31fAp-14")]);
    assert_eq!(spans(&ts), vec!["0x345", "0xff", "0xBEBADA", "0xA3Fb.F31fAp-14"]);
}

#[test]
fn hex_float_normal_forms() {
    assert_eq!(lex("0x.8")[0].kind, float(true, "0x0.8p0"));
    assert_eq!(lex("0x1.")[0].kind, float(true, "0x1.0p0"));
    assert_eq!(lex("0x1p4")[0].kind, float(true, "0x1.0p4"));
    assert_eq!(lex("0X1P+4")[0].kind, float(true, "0x1.0p+4"));
}

#[test]
fn keywords_and_identifiers() {
    let ts = lex("local x_1 = function_ ~= elseif");
    let kinds: Vec<_> = ts.iter().map(|t| t.kind.clone()).collect();
    assert_eq!(
        kinds,
        vec![
            TokenKind::Keyword(Keyword::Local),
            TokenKind::Identifier,
            TokenKind::Symbol(Symbol::Equals),
            TokenKind::Identifier,
            TokenKind::Symbol(Symbol::NotEquals),
            TokenKind::Keyword(Keyword::Elseif),
        ]
    );
    assert_eq!(spans(&ts), vec!["local", "x_1", "=", "function_", "~=", "elseif"]);
}

#[test]
fn every_keyword() {
    let words = [
        ("and", Keyword::And), ("break", Keyword::Break), ("do", Keyword::Do),
        ("else", Keyword::Else), ("elseif", Keyword::Elseif), ("end", Keyword::End),
        ("false", Keyword::False), ("for", Keyword::For), ("function", Keyword::Function),
        ("goto", Keyword::Goto), ("if", Keyword::If), ("in", Keyword::In),
        ("local", Keyword::Local), ("nil", Keyword::Nil), ("not", Keyword::Not),
        ("or", Keyword::Or), ("repeat", Keyword::Repeat), ("return", Keyword::Return),
        ("then", Keyword::Then), ("true", Keyword::True), ("until", Keyword::Until),
        ("while", Keyword::While),
    ];
    for (w, k) in words {
        assert_eq!(lex(w)[0].kind, TokenKind::Keyword(k));
        let longer = format!("{}x", w);
        assert_eq!(lex(&longer)[0].kind, TokenKind::Identifier);
    }
}

#[test]
fn decimal_numerals() {
    assert_eq!(lex("42")[0].kind, integer(42));
    assert_eq!(lex("3.25")[0].kind, float(false, "3.25"));
    assert_eq!(lex(".5")[0].kind, float(false, "0.5"));
    assert_eq!(lex("2.5e+3")[0].kind, float(false, "2.5e+3"));
    assert_eq!(lex("9223372036854775807")[0].kind, integer(i64::MAX));
}

#[test]
fn decimal_quirks() {
    // a point without fractional digits is followed by a `0` digit
    assert_eq!(lex("5.")[0].kind, float(false, "50"));
    // an exponent on a numeral without point keeps it an integer
    let ts = lex("1e5");
    assert_eq!(ts[0].kind, integer(1));
    assert_eq!(ts[0].span.0, "1e5");
    // the byte after the exponent digits belongs to the numeral
    let ts = lex("1.5e5)+");
    assert_eq!(ts[0].kind, float(false, "1.5e5"));
    assert_eq!(spans(&ts), vec!["1.5e5)", "+"]);
}

#[test]
fn short_strings() {
    let ts = lex("\"abc\" 'it\\'s' \"a\\\\\"");
    assert_eq!(ts[0].kind, TokenKind::LiteralString(LiteralString::Short("abc")));
    assert_eq!(ts[1].kind, TokenKind::LiteralString(LiteralString::Short("it\\'s")));
    assert_eq!(ts[2].kind, TokenKind::LiteralString(LiteralString::Short("a\\\\")));
    assert_eq!(spans(&ts), vec!["\"abc\"", "'it\\'s'", "\"a\\\\\""]);
}

#[test]
fn empty_short_string_runs_to_the_next_quote() {
    let ts = lex("\"\" x \"");
    assert_eq!(ts.len(), 1);
    assert_eq!(ts[0].kind, TokenKind::LiteralString(LiteralString::Short("\" x ")));
    assert!(fails("\"\""));
}

#[test]
fn long_strings() {
    let ts = lex("[[hi]] [==[a]]b]=]c]==]");
    assert_eq!(ts[0].kind, TokenKind::LiteralString(LiteralString::Long("hi")));
    assert_eq!(ts[1].kind, TokenKind::LiteralString(LiteralString::Long("a]]b]=]c")));
    assert_eq!(spans(&ts), vec!["[[hi]]", "[==[a]]b]=]c]==]"]);
}

#[test]
fn unclosed_long_bracket_is_a_symbol() {
    let ts = lex("[[x");
    let kinds: Vec<_> = ts.iter().map(|t| t.kind.clone()).collect();
    assert_eq!(
        kinds,
        vec![TokenKind::Symbol(Symbol::LBracket), TokenKind::Symbol(Symbol::LBracket), TokenKind::Identifier]
    );
}

#[test]
fn symbols_longest_first() {
    let ts = lex("... .. . << <= < >> >= > // / == = ~= ~ :: : + - * % ^ # & | ( ) { } [ ] ; ,");
    let kinds: Vec<_> = ts.iter().map(|t| t.kind.clone()).collect();
    let expected = [
        Symbol::DotDotDot, Symbol::DotDot, Symbol::Dot, Symbol::LShift, Symbol::LessOrEquals,
        Symbol::LessThan, Symbol::RShift, Symbol::GreaterOrEquals, Symbol::GreaterThan,
        Symbol::SlashSlash, Symbol::Slash, Symbol::EqualsEquals, Symbol::Equals, Symbol::NotEquals,
        Symbol::Tilde, Symbol::ColonColon, Symbol::Colon, Symbol::Plus, Symbol::Dash, Symbol::Star,
        Symbol::Percent, Symbol::Caret, Symbol::Hashtag, Symbol::Ampersand, Symbol::Pipe,
        Symbol::LParen, Symbol::RParen, Symbol::LCurly, Symbol::RCurly, Symbol::LBracket,
        Symbol::RBracket, Symbol::Semicolon, Symbol::Comma,
    ];
    let expected: Vec<_> = expected.iter().map(|s| TokenKind::Symbol(*s)).collect();
    assert_eq!(kinds, expected);
}

#[test]
fn comments_are_skipped() {
    let ts = lex("a -- short comment\nb --[==[ long\n comment ]==] c --[x\nd -- end");
    assert_eq!(spans(&ts), vec!["a", "b", "c", "d"]);
}

#[test]
fn unicode_white_space_is_skipped() {
    let src = "\u{00A0}\u{3000}\t x\u{2028}y";
    let ts = lex(src);
    assert_eq!(spans(&ts), vec!["x", "y"]);
    let mut l = Lexer::new(src);
    assert!(l.skip_whitespace());
    assert_eq!(l.get_view(), "x\u{2028}y");
    assert!(!l.skip_whitespace());
}

#[test]
fn malformed_text_stops_the_lexer() {
    assert!(fails("\"abc"));
    assert!(fails("--[[ never closed"));
    assert!(fails("0x"));
    assert!(fails("0x.p1"));
    assert!(fails("0x1p"));
    assert!(fails("0x1p-"));
    assert!(fails("99999999999999999999"));
    assert!(fails("0x8000000000000000"));
    assert!(fails("1e5\u{e9}"));
    assert!(fails("x @ y"));
}

#[test]
fn single_scanners() {
    let mut l = Lexer::new("abc 12");
    assert!(l.lex_numeric_constant().is_none());
    assert!(l.lex_short_literal_string().is_none());
    assert!(l.lex_long_literal_string().is_none());
    assert!(l.lex_symbol().is_none());
    let t = l.lex_identifier_or_keyword().unwrap();
    assert_eq!(t.span.0, "abc");
    assert_eq!(l.get_view(), " 12");
    assert_eq!(l.view_len(), 3);
    assert_eq!(l.tokens_len(), 0);
    assert!(l.skip_whitespace());
    assert!(l.lex_identifier_or_keyword().is_none());
    let t = l.lex_numeric_constant().unwrap();
    assert_eq!(t.kind, integer(12));
    assert_eq!(l.view_len(), 0);
}

#[test]
fn lex_to_end_appends_tokens() {
    let mut l = Lexer::new("x = 1");
    l.lex_to_end();
    assert_eq!(l.tokens_len(), 3);
    assert_eq!(l.iter_tokens().count(), 3);
    for t in l.iter_mut_tokens() {
        t.kind = TokenKind::Identifier;
    }
    assert!(l.iter_tokens().all(|t| t.kind == TokenKind::Identifier));
}

#[test]
fn leading_white_space_does_not_change_the_tokens() {
    let a = lex("if x then return 0x10 end");
    let b = lex("   if x then return 0x10 end");
    assert_eq!(a, b);
}

#[test]
fn error_messages() {
    assert_eq!(LexerError::UnclosedLongComment.message(), "Unclosed long comment !");
    assert_eq!(
        LexerError::InvalidStringuEscapeInvalidChar(65).message(),
        "Invalid \\u string escape: Invalid character (byte value: 65) in escape sequence !"
    );
    assert_eq!(
        LexerError::InvalidStringuEscapeInvalidChar(200).message(),
        "Invalid \\u string escape: Invalid character (byte value: 200) in escape sequence !"
    );
    assert_eq!(
        LexerError::InvalidStringuEscapeInvalidChar(7).message(),
        "Invalid \\u string escape: Invalid character (byte value: 7) in escape sequence !"
    );
    let all = [
        (LexerError::InvalidStringuEscapeMissingOpenBrace, "Invalid \\u string escape: Missing opening brace !"),
        (LexerError::InvalidStringuEscapeMissingClosingBrace, "Invalid \\u string escape: Missing closing brace !"),
        (LexerError::InvalidStringuEscapeNoDigits, "Invalid \\u string escape: No digits in escape sequence ! (needed to specify codepoint)"),
        (LexerError::InvalidStringuEscapeBeyond0x10FFFF, "Invalid \\u string escape: Beyond Lua 5.3 0x10FFFF limit !"),
        (LexerError::InvalidStringxEscapeUnfinished, "Unfinished \\x escape sequence at end of string !"),
        (LexerError::InvalidStringxEscapeInvalidPossiblyTooLarge, "Invalid hex, maybe too large? in \\x escape sequence !"),
        (LexerError::InvalidStringDecimalEscapeBeyondu8, "Invalid decimal string escape: Beyond 255 !"),
        (LexerError::InvalidStringEscape, "Unrecognized string escape !"),
        (LexerError::UnclosedShortString, "Unclosed short string !"),
        (LexerError::UnclosedLongString, "Unclosed long string !"),
        (LexerError::DecimalNumericConstantNeedsIntOrFracPart, "Decimal numeric constant needs at least an integer or fractional part !"),
        (LexerError::HexNumericConstantNeedsIntOrFracPart, "Hex numeric constant needs integer part or fractional part!"),
        (LexerError::DecimalNumericConstantMalformedExponent, "Decimal numeric constant has malformed exponent"),
    ];
    for (e, m) in all {
        assert_eq!(e.message(), m);
    }
    assert_eq!(
        LexerError::HexNumericConstantMalformedExponent.message(),
        "Hex numeric constant has malformed exponent"
    );
}

#[test]
fn iter_mut_tokens_hands_out_the_tokens_in_order() {
    let mut l = Lexer::new("a = 1 b");
    l.lex_to_end();
    let before: Vec<Token<'_>> = l.iter_tokens().cloned().collect();
    let mut seen = Vec::new();
    for (i, t) in l.iter_mut_tokens().enumerate() {
        seen.push(t.clone());
        if i == 2 {
            t.kind = TokenKind::Identifier;
        }
    }
    assert_eq!(seen, before);
    assert_eq!(l.tokens_len(), 4);
    assert_eq!(l.view_len(), 0);
    let after: Vec<Token<'_>> = l.iter_tokens().cloned().collect();
    assert_eq!(after[0], before[0]);
    assert_eq!(after[1], before[1]);
    assert_eq!(after[2].kind, TokenKind::Identifier);
    assert_eq!(after[2].span, before[2].span);
    assert_eq!(after[3], before[3]);
}

#[test]
fn token_mut_changes_one_token() {
    let mut l = Lexer::new("x + y");
    l.lex_to_end();
    let before: Vec<Token<'_>> = l.iter_tokens().cloned().collect();
    assert_eq!(l.token_mut(1).kind, TokenKind::Symbol(Symbol::Plus));
    l.token_mut(1).kind = TokenKind::Symbol(Symbol::Dash);
    let after: Vec<Token<'_>> = l.iter_tokens().cloned().collect();
    assert_eq!(after.len(), 3);
    assert_eq!(after[0], before[0]);
    assert_eq!(after[1].kind, TokenKind::Symbol(Symbol::Dash));
    assert_eq!(after[1].span, before[1].span);
    assert_eq!(after[2], before[2]);
}

#[test]
fn different_errors_have_different_messages() {
    let all = [
        LexerError::UnclosedLongComment,
        LexerError::InvalidStringuEscapeMissingOpenBrace,
        LexerError::InvalidStringuEscapeMissingClosingBrace,
        LexerError::InvalidStringuEscapeInvalidChar(0),
        LexerError::InvalidStringuEscapeInvalidChar(10),
        LexerError::InvalidStringuEscapeInvalidChar(100),
        LexerError::InvalidStringuEscapeInvalidChar(255),
        LexerError::InvalidStringuEscapeNoDigits,
        LexerError::InvalidStringuEscapeBeyond0x10FFFF,
        LexerError::InvalidStringxEscapeUnfinished,
        LexerError::InvalidStringxEscapeInvalidPossiblyTooLarge,
        LexerError::InvalidStringDecimalEscapeBeyondu8,
        LexerError::InvalidStringEscape,
        LexerError::UnclosedShortString,
        LexerError::UnclosedLongString,
        LexerError::DecimalNumericConstantNeedsIntOrFracPart,
        LexerError::HexNumericConstantNeedsIntOrFracPart,
        LexerError::HexNumericConstantMalformedExponent,
        LexerError::DecimalNumericConstantMalformedExponent,
    ];
    for (i, a) in all.iter().enumerate() {
        for (j, b) in all.iter().enumerate() {
            assert_eq!(i == j, a.message() == b.message());
        }
    }
}

#[test]
fn try_lex_to_end_keeps_the_tokens_before_a_stop() {
    let mut l = Lexer::new("x = 'abc");
    assert!(!l.try_lex_to_end());
    assert_eq!(l.tokens_len(), 2);
    let ts: Vec<Token<'_>> = l.iter_tokens().cloned().collect();
    assert_eq!(ts[0].kind, TokenKind::Identifier);
    assert_eq!(ts[1].kind, TokenKind::Symbol(Symbol::Equals));
    let mut m = Lexer::new("a \\ b");
    assert!(!m.try_lex_to_end());
    assert_eq!(m.tokens_len(), 1);
    assert_eq!(m.get_view(), "\\ b");
}

#[test]
fn exponent_sign_without_digits() {
    // with a point, the numeral is malformed
    assert!(fails("1.5e+"));
    assert!(fails("x = .5E- 1"));
    let mut l = Lexer::new("2.e-");
    assert_eq!(l.lex_numeric_checked(), Err(()));
    // without a point, the exponent is read over and the numeral is an integer
    let ts = lex("1e+");
    assert_eq!(ts[0].kind, integer(1));
    assert_eq!(ts[0].span.0, "1e+");
}
