//! The operators and punctuation of Lua.

use vstd::prelude::*;

verus! {

/// An operator or a punctuation mark.
#[derive(Clone, Copy, Debug, PartialEq, Eq, Structural)]
pub enum Symbol {
    /// `...`
    DotDotDot,
    /// `<<`
    LShift,
    /// `>>`
    RShift,
    /// `//`
    SlashSlash,
    /// `==`
    EqualsEquals,
    /// `~=`
    NotEquals,
    /// `<=`
    LessOrEquals,
    /// `>=`
    GreaterOrEquals,
    /// `::`
    ColonColon,
    /// `..`
    DotDot,
    /// `+`
    Plus,
    /// `-`
    Dash,
    /// `*`
    Star,
    /// `/`
    Slash,
    /// `%`
    Percent,
    /// `^`
    Caret,
    /// `#`
    Hashtag,
    /// `&`
    Ampersand,
    /// `~`
    Tilde,
    /// `|`
    Pipe,
    /// `<`
    LessThan,
    /// `>`
    GreaterThan,
    /// `=`
    Equals,
    /// `(`
    LParen,
    /// `)`
    RParen,
    /// `{`
    LCurly,
    /// `}`
    RCurly,
    /// `[`
    LBracket,
    /// `]`
    RBracket,
    /// `;`
    Semicolon,
    /// `:`
    Colon,
    /// `,`
    Comma,
    /// `.`
    Dot,
}

/// How a symbol is spelled in the source text.
pub open spec fn symbol_spelling(s: Symbol) -> Seq<u8> {
    match s {
        Symbol::DotDotDot => seq!['.' as u8, '.' as u8, '.' as u8],
        Symbol::LShift => seq!['<' as u8, '<' as u8],
        Symbol::RShift => seq!['>' as u8, '>' as u8],
        Symbol::SlashSlash => seq!['/' as u8, '/' as u8],
        Symbol::EqualsEquals => seq!['=' as u8, '=' as u8],
        Symbol::NotEquals => seq!['~' as u8, '=' as u8],
        Symbol::LessOrEquals => seq!['<' as u8, '=' as u8],
        Symbol::GreaterOrEquals => seq!['>' as u8, '=' as u8],
        Symbol::ColonColon => seq![':' as u8, ':' as u8],
        Symbol::DotDot => seq!['.' as u8, '.' as u8],
        Symbol::Plus => seq!['+' as u8],
        Symbol::Dash => seq!['-' as u8],
        Symbol::Star => seq!['*' as u8],
        Symbol::Slash => seq!['/' as u8],
        Symbol::Percent => seq!['%' as u8],
        Symbol::Caret => seq!['^' as u8],
        Symbol::Hashtag => seq!['#' as u8],
        Symbol::Ampersand => seq!['&' as u8],
        Symbol::Tilde => seq!['~' as u8],
        Symbol::Pipe => seq!['|' as u8],
        Symbol::LessThan => seq!['<' as u8],
        Symbol::GreaterThan => seq!['>' as u8],
        Symbol::Equals => seq!['=' as u8],
        Symbol::LParen => seq!['(' as u8],
        Symbol::RParen => seq![')' as u8],
        Symbol::LCurly => seq!['{' as u8],
        Symbol::RCurly => seq!['}' as u8],
        Symbol::LBracket => seq!['[' as u8],
        Symbol::RBracket => seq![']' as u8],
        Symbol::Semicolon => seq![';' as u8],
        Symbol::Colon => seq![':' as u8],
        Symbol::Comma => seq![',' as u8],
        Symbol::Dot => seq!['.' as u8],
    }
}

/// Whether `b` starts with the spelling of `s`.
pub open spec fn starts_with_symbol(b: Seq<u8>, s: Symbol) -> bool {
    let p = symbol_spelling(s);
    &&& p.len() <= b.len()
    &&& forall|j: int| 0 <= j < p.len() ==> #[trigger] b[j] == p[j]
}

/// The length of the longest symbol spelling that `b` starts with, or 0
/// when it starts with none. Spellings are 1 to 3 bytes long.
pub open spec fn longest_symbol_len(b: Seq<u8>) -> nat {
    if exists|s: Symbol| starts_with_symbol(b, s) && symbol_spelling(s).len() == 3 {
        3
    } else if exists|s: Symbol| starts_with_symbol(b, s) && symbol_spelling(s).len() == 2 {
        2
    } else if exists|s: Symbol| starts_with_symbol(b, s) && symbol_spelling(s).len() == 1 {
        1
    } else {
        0
    }
}

/// The symbol with the longest spelling that `b` starts with, and the
/// length of that spelling.
pub open spec fn scan_symbol(b: Seq<u8>) -> Option<(Symbol, nat)> {
    let n = longest_symbol_len(b);
    if n > 0 {
        Some(
            (
                choose|s: Symbol| starts_with_symbol(b, s) && symbol_spelling(s).len() == n,
                n,
            ),
        )
    } else {
        None
    }
}

/// Every spelling is 1 to 3 ASCII bytes long.
pub proof fn lemma_symbol_spelling(s: Symbol)
    ensures
        1 <= symbol_spelling(s).len() <= 3,
        forall|j: int| 0 <= j < symbol_spelling(s).len() ==> symbol_spelling(s)[j] < 0x80,
{
}

/// Where `b` starts with `s0` and with no longer or other equally long
/// symbol, `s0` is what `scan_symbol` finds.
proof fn lemma_longest_symbol(b: Seq<u8>, s0: Symbol)
    requires
        starts_with_symbol(b, s0),
        forall|t: Symbol|
            starts_with_symbol(b, t) ==> symbol_spelling(t).len() < symbol_spelling(s0).len() || t
                == s0,
    ensures
        scan_symbol(b) == Some((s0, symbol_spelling(s0).len())),
{
    lemma_symbol_spelling(s0);
    let n = symbol_spelling(s0).len();
    assert forall|t: Symbol| starts_with_symbol(b, t) implies symbol_spelling(t).len() <= n by {
    }
    assert(longest_symbol_len(b) == n) by {
        if n < 3 {
            assert forall|t: Symbol| !(starts_with_symbol(b, t) && symbol_spelling(t).len() == 3) by {
            }
        }
        if n < 2 {
            assert forall|t: Symbol| !(starts_with_symbol(b, t) && symbol_spelling(t).len() == 2) by {
            }
        }
    }
    let s1 = choose|s: Symbol| starts_with_symbol(b, s) && symbol_spelling(s).len() == n;
    assert(starts_with_symbol(b, s1) && symbol_spelling(s1).len() == n);
    assert(s1 == s0);
}

/// Where `b` starts with no symbol, `scan_symbol` finds none.
proof fn lemma_no_symbol(b: Seq<u8>)
    requires
        forall|t: Symbol| !starts_with_symbol(b, t),
    ensures
        scan_symbol(b) is None,
{
}

/// A symbol takes 1 to 3 ASCII bytes and is spelled as `symbol_spelling`
/// says.
pub proof fn lemma_scan_symbol(b: Seq<u8>)
    ensures
        scan_symbol(b) matches Some((s, n)) ==> {
            &&& 1 <= n <= 3
            &&& n <= b.len()
            &&& b.take(n as int) == symbol_spelling(s)
            &&& forall|j: int| 0 <= j < n ==> b[j] < 0x80
        },
{
    if let Some((s, n)) = scan_symbol(b) {
        lemma_symbol_spelling(s);
        assert(b.take(n as int) =~= symbol_spelling(s));
    }
}

/// Recognizes the symbol at the front of `b`.
pub fn symbol_at_front(b: &[u8]) -> (r: Option<(Symbol, usize)>)
    ensures
        match scan_symbol(b@) {
            Some((s, n)) => r == Some((s, n as usize)),
            None => r is None,
        },
{
    let n = b.len();
    if n >= 3 && b[0] == '.' as u8 && b[1] == '.' as u8 && b[2] == '.' as u8 {
        proof {
            lemma_longest_symbol(b@, Symbol::DotDotDot);
        }
        Some((Symbol::DotDotDot, 3))
    }     else if n >= 2 && b[0] == '<' as u8 && b[1] == '<' as u8 {
        proof {
            lemma_longest_symbol(b@, Symbol::LShift);
        }
        Some((Symbol::LShift, 2))
    }     else if n >= 2 && b[0] == '>' as u8 && b[1] == '>' as u8 {
        proof {
            lemma_longest_symbol(b@, Symbol::RShift);
        }
        Some((Symbol::RShift, 2))
    }     else if n >= 2 && b[0] == '/' as u8 && b[1] == '/' as u8 {
        proof {
            lemma_longest_symbol(b@, Symbol::SlashSlash);
        }
        Some((Symbol::SlashSlash, 2))
    }     else if n >= 2 && b[0] == '=' as u8 && b[1] == '=' as u8 {
        proof {
            lemma_longest_symbol(b@, Symbol::EqualsEquals);
        }
        Some((Symbol::EqualsEquals, 2))
    }     else if n >= 2 && b[0] == '~' as u8 && b[1] == '=' as u8 {
        proof {
            lemma_longest_symbol(b@, Symbol::NotEquals);
        }
        Some((Symbol::NotEquals, 2))
    }     else if n >= 2 && b[0] == '<' as u8 && b[1] == '=' as u8 {
        proof {
            lemma_longest_symbol(b@, Symbol::LessOrEquals);
        }
        Some((Symbol::LessOrEquals, 2))
    }     else if n >= 2 && b[0] == '>' as u8 && b[1] == '=' as u8 {
        proof {
            lemma_longest_symbol(b@, Symbol::GreaterOrEquals);
        }
        Some((Symbol::GreaterOrEquals, 2))
    }     else if n >= 2 && b[0] == ':' as u8 && b[1] == ':' as u8 {
        proof {
            lemma_longest_symbol(b@, Symbol::ColonColon);
        }
        Some((Symbol::ColonColon, 2))
    }     else if n >= 2 && b[0] == '.' as u8 && b[1] == '.' as u8 {
        proof {
            lemma_longest_symbol(b@, Symbol::DotDot);
        }
        Some((Symbol::DotDot, 2))
    }     else if n >= 1 && b[0] == '+' as u8 {
        proof {
            lemma_longest_symbol(b@, Symbol::Plus);
        }
        Some((Symbol::Plus, 1))
    }     else if n >= 1 && b[0] == '-' as u8 {
        proof {
            lemma_longest_symbol(b@, Symbol::Dash);
        }
        Some((Symbol::Dash, 1))
    }     else if n >= 1 && b[0] == '*' as u8 {
        proof {
            lemma_longest_symbol(b@, Symbol::Star);
        }
        Some((Symbol::Star, 1))
    }     else if n >= 1 && b[0] == '/' as u8 {
        proof {
            lemma_longest_symbol(b@, Symbol::Slash);
        }
        Some((Symbol::Slash, 1))
    }     else if n >= 1 && b[0] == '%' as u8 {
        proof {
            lemma_longest_symbol(b@, Symbol::Percent);
        }
        Some((Symbol::Percent, 1))
    }     else if n >= 1 && b[0] == '^' as u8 {
        proof {
            lemma_longest_symbol(b@, Symbol::Caret);
        }
        Some((Symbol::Caret, 1))
    }     else if n >= 1 && b[0] == '#' as u8 {
        proof {
            lemma_longest_symbol(b@, Symbol::Hashtag);
        }
        Some((Symbol::Hashtag, 1))
    }     else if n >= 1 && b[0] == '&' as u8 {
        proof {
            lemma_longest_symbol(b@, Symbol::Ampersand);
        }
        Some((Symbol::Ampersand, 1))
    }     else if n >= 1 && b[0] == '~' as u8 {
        proof {
            lemma_longest_symbol(b@, Symbol::Tilde);
        }
        Some((Symbol::Tilde, 1))
    }     else if n >= 1 && b[0] == '|' as u8 {
        proof {
            lemma_longest_symbol(b@, Symbol::Pipe);
        }
        Some((Symbol::Pipe, 1))
    }     else if n >= 1 && b[0] == '<' as u8 {
        proof {
            lemma_longest_symbol(b@, Symbol::LessThan);
        }
        Some((Symbol::LessThan, 1))
    }     else if n >= 1 && b[0] == '>' as u8 {
        proof {
            lemma_longest_symbol(b@, Symbol::GreaterThan);
        }
        Some((Symbol::GreaterThan, 1))
    }     else if n >= 1 && b[0] == '=' as u8 {
        proof {
            lemma_longest_symbol(b@, Symbol::Equals);
        }
        Some((Symbol::Equals, 1))
    }     else if n >= 1 && b[0] == '(' as u8 {
        proof {
            lemma_longest_symbol(b@, Symbol::LParen);
        }
        Some((Symbol::LParen, 1))
    }     else if n >= 1 && b[0] == ')' as u8 {
        proof {
            lemma_longest_symbol(b@, Symbol::RParen);
        }
        Some((Symbol::RParen, 1))
    }     else if n >= 1 && b[0] == '{' as u8 {
        proof {
            lemma_longest_symbol(b@, Symbol::LCurly);
        }
        Some((Symbol::LCurly, 1))
    }     else if n >= 1 && b[0] == '}' as u8 {
        proof {
            lemma_longest_symbol(b@, Symbol::RCurly);
        }
        Some((Symbol::RCurly, 1))
    }     else if n >= 1 && b[0] == '[' as u8 {
        proof {
            lemma_longest_symbol(b@, Symbol::LBracket);
        }
        Some((Symbol::LBracket, 1))
    }     else if n >= 1 && b[0] == ']' as u8 {
        proof {
            lemma_longest_symbol(b@, Symbol::RBracket);
        }
        Some((Symbol::RBracket, 1))
    }     else if n >= 1 && b[0] == ';' as u8 {
        proof {
            lemma_longest_symbol(b@, Symbol::Semicolon);
        }
        Some((Symbol::Semicolon, 1))
    }     else if n >= 1 && b[0] == ':' as u8 {
        proof {
            lemma_longest_symbol(b@, Symbol::Colon);
        }
        Some((Symbol::Colon, 1))
    }     else if n >= 1 && b[0] == ',' as u8 {
        proof {
            lemma_longest_symbol(b@, Symbol::Comma);
        }
        Some((Symbol::Comma, 1))
    }     else if n >= 1 && b[0] == '.' as u8 {
        proof {
            lemma_longest_symbol(b@, Symbol::Dot);
        }
        Some((Symbol::Dot, 1))
    } else {
        proof {
            lemma_no_symbol(b@);
        }
        None
    }
}

} // verus!
