//! The reserved words of Lua.

use vstd::prelude::*;

verus! {

/// The reserved words of the language; none of them can be used as an
/// identifier.
#[derive(Clone, Copy, Debug, PartialEq, Eq, Structural)]
pub enum Keyword {
    //  and       break     do        else      elseif    end
    //  false     for       function  goto      if        in
    //  local     nil       not       or        repeat    return
    //  then      true      until     while
    And, Break, Do, Else, Elseif, End, False, For, Function, Goto, If, In, Local, Nil, Not, Or, Repeat, Return, Then, True, Until, While,
}

/// How a keyword is spelled in the source text.
pub open spec fn keyword_spelling(k: Keyword) -> Seq<u8> {
    match k {
        Keyword::And => seq!['a' as u8, 'n' as u8, 'd' as u8],
        Keyword::Break => seq!['b' as u8, 'r' as u8, 'e' as u8, 'a' as u8, 'k' as u8],
        Keyword::Do => seq!['d' as u8, 'o' as u8],
        Keyword::Else => seq!['e' as u8, 'l' as u8, 's' as u8, 'e' as u8],
        Keyword::Elseif => seq!['e' as u8, 'l' as u8, 's' as u8, 'e' as u8, 'i' as u8, 'f' as u8],
        Keyword::End => seq!['e' as u8, 'n' as u8, 'd' as u8],
        Keyword::False => seq!['f' as u8, 'a' as u8, 'l' as u8, 's' as u8, 'e' as u8],
        Keyword::For => seq!['f' as u8, 'o' as u8, 'r' as u8],
        Keyword::Function => seq!['f' as u8, 'u' as u8, 'n' as u8, 'c' as u8, 't' as u8, 'i' as u8, 'o' as u8, 'n' as u8],
        Keyword::Goto => seq!['g' as u8, 'o' as u8, 't' as u8, 'o' as u8],
        Keyword::If => seq!['i' as u8, 'f' as u8],
        Keyword::In => seq!['i' as u8, 'n' as u8],
        Keyword::Local => seq!['l' as u8, 'o' as u8, 'c' as u8, 'a' as u8, 'l' as u8],
        Keyword::Nil => seq!['n' as u8, 'i' as u8, 'l' as u8],
        Keyword::Not => seq!['n' as u8, 'o' as u8, 't' as u8],
        Keyword::Or => seq!['o' as u8, 'r' as u8],
        Keyword::Repeat => seq!['r' as u8, 'e' as u8, 'p' as u8, 'e' as u8, 'a' as u8, 't' as u8],
        Keyword::Return => seq!['r' as u8, 'e' as u8, 't' as u8, 'u' as u8, 'r' as u8, 'n' as u8],
        Keyword::Then => seq!['t' as u8, 'h' as u8, 'e' as u8, 'n' as u8],
        Keyword::True => seq!['t' as u8, 'r' as u8, 'u' as u8, 'e' as u8],
        Keyword::Until => seq!['u' as u8, 'n' as u8, 't' as u8, 'i' as u8, 'l' as u8],
        Keyword::While => seq!['w' as u8, 'h' as u8, 'i' as u8, 'l' as u8, 'e' as u8],
    }
}

/// The keyword that the word `w` spells, if any.
pub open spec fn keyword_of(w: Seq<u8>) -> Option<Keyword> {
    if w == keyword_spelling(Keyword::And) {
        Some(Keyword::And)
    }     else if w == keyword_spelling(Keyword::Break) {
        Some(Keyword::Break)
    }     else if w == keyword_spelling(Keyword::Do) {
        Some(Keyword::Do)
    }     else if w == keyword_spelling(Keyword::Else) {
        Some(Keyword::Else)
    }     else if w == keyword_spelling(Keyword::Elseif) {
        Some(Keyword::Elseif)
    }     else if w == keyword_spelling(Keyword::End) {
        Some(Keyword::End)
    }     else if w == keyword_spelling(Keyword::False) {
        Some(Keyword::False)
    }     else if w == keyword_spelling(Keyword::For) {
        Some(Keyword::For)
    }     else if w == keyword_spelling(Keyword::Function) {
        Some(Keyword::Function)
    }     else if w == keyword_spelling(Keyword::Goto) {
        Some(Keyword::Goto)
    }     else if w == keyword_spelling(Keyword::If) {
        Some(Keyword::If)
    }     else if w == keyword_spelling(Keyword::In) {
        Some(Keyword::In)
    }     else if w == keyword_spelling(Keyword::Local) {
        Some(Keyword::Local)
    }     else if w == keyword_spelling(Keyword::Nil) {
        Some(Keyword::Nil)
    }     else if w == keyword_spelling(Keyword::Not) {
        Some(Keyword::Not)
    }     else if w == keyword_spelling(Keyword::Or) {
        Some(Keyword::Or)
    }     else if w == keyword_spelling(Keyword::Repeat) {
        Some(Keyword::Repeat)
    }     else if w == keyword_spelling(Keyword::Return) {
        Some(Keyword::Return)
    }     else if w == keyword_spelling(Keyword::Then) {
        Some(Keyword::Then)
    }     else if w == keyword_spelling(Keyword::True) {
        Some(Keyword::True)
    }     else if w == keyword_spelling(Keyword::Until) {
        Some(Keyword::Until)
    }     else if w == keyword_spelling(Keyword::While) {
        Some(Keyword::While)
    } else {
        None
    }
}

/// A word is a keyword exactly when it is spelled as one.
pub proof fn lemma_keyword_of(w: Seq<u8>)
    ensures
        keyword_of(w) matches Some(k) ==> keyword_spelling(k) == w,
        keyword_of(w) is None ==> forall|k: Keyword| keyword_spelling(k) != w,
{
}

/// Whether the bytes `w` are exactly the bytes `c`.
fn same_word(w: &[u8], c: &[u8]) -> (r: bool)
    ensures
        r == (w@ == c@),
{
    if w.len() != c.len() {
        return false;
    }
    let mut i: usize = 0;
    while i < w.len()
        invariant
            w@.len() == c@.len(),
            0 <= i <= w@.len(),
            forall|j: int| 0 <= j < i ==> w@[j] == c@[j],
        decreases w@.len() - i,
    {
        if w[i] != c[i] {
            return false;
        }
        i = i + 1;
    }
    assert(w@ =~= c@);
    true
}

/// Recognizes a keyword among the words of the source text.
pub fn keyword_from_bytes(w: &[u8]) -> (r: Option<Keyword>)
    ensures
        r == keyword_of(w@),
{
    let spelled: [u8; 3] = ['a' as u8, 'n' as u8, 'd' as u8];
    assert(spelled@ =~= keyword_spelling(Keyword::And));
    if same_word(w, spelled.as_slice()) {
        return Some(Keyword::And);
    }
    let spelled: [u8; 5] = ['b' as u8, 'r' as u8, 'e' as u8, 'a' as u8, 'k' as u8];
    assert(spelled@ =~= keyword_spelling(Keyword::Break));
    if same_word(w, spelled.as_slice()) {
        return Some(Keyword::Break);
    }
    let spelled: [u8; 2] = ['d' as u8, 'o' as u8];
    assert(spelled@ =~= keyword_spelling(Keyword::Do));
    if same_word(w, spelled.as_slice()) {
        return Some(Keyword::Do);
    }
    let spelled: [u8; 4] = ['e' as u8, 'l' as u8, 's' as u8, 'e' as u8];
    assert(spelled@ =~= keyword_spelling(Keyword::Else));
    if same_word(w, spelled.as_slice()) {
        return Some(Keyword::Else);
    }
    let spelled: [u8; 6] = ['e' as u8, 'l' as u8, 's' as u8, 'e' as u8, 'i' as u8, 'f' as u8];
    assert(spelled@ =~= keyword_spelling(Keyword::Elseif));
    if same_word(w, spelled.as_slice()) {
        return Some(Keyword::Elseif);
    }
    let spelled: [u8; 3] = ['e' as u8, 'n' as u8, 'd' as u8];
    assert(spelled@ =~= keyword_spelling(Keyword::End));
    if same_word(w, spelled.as_slice()) {
        return Some(Keyword::End);
    }
    let spelled: [u8; 5] = ['f' as u8, 'a' as u8, 'l' as u8, 's' as u8, 'e' as u8];
    assert(spelled@ =~= keyword_spelling(Keyword::False));
    if same_word(w, spelled.as_slice()) {
        return Some(Keyword::False);
    }
    let spelled: [u8; 3] = ['f' as u8, 'o' as u8, 'r' as u8];
    assert(spelled@ =~= keyword_spelling(Keyword::For));
    if same_word(w, spelled.as_slice()) {
        return Some(Keyword::For);
    }
    let spelled: [u8; 8] = ['f' as u8, 'u' as u8, 'n' as u8, 'c' as u8, 't' as u8, 'i' as u8, 'o' as u8, 'n' as u8];
    assert(spelled@ =~= keyword_spelling(Keyword::Function));
    if same_word(w, spelled.as_slice()) {
        return Some(Keyword::Function);
    }
    let spelled: [u8; 4] = ['g' as u8, 'o' as u8, 't' as u8, 'o' as u8];
    assert(spelled@ =~= keyword_spelling(Keyword::Goto));
    if same_word(w, spelled.as_slice()) {
        return Some(Keyword::Goto);
    }
    let spelled: [u8; 2] = ['i' as u8, 'f' as u8];
    assert(spelled@ =~= keyword_spelling(Keyword::If));
    if same_word(w, spelled.as_slice()) {
        return Some(Keyword::If);
    }
    let spelled: [u8; 2] = ['i' as u8, 'n' as u8];
    assert(spelled@ =~= keyword_spelling(Keyword::In));
    if same_word(w, spelled.as_slice()) {
        return Some(Keyword::In);
    }
    let spelled: [u8; 5] = ['l' as u8, 'o' as u8, 'c' as u8, 'a' as u8, 'l' as u8];
    assert(spelled@ =~= keyword_spelling(Keyword::Local));
    if same_word(w, spelled.as_slice()) {
        return Some(Keyword::Local);
    }
    let spelled: [u8; 3] = ['n' as u8, 'i' as u8, 'l' as u8];
    assert(spelled@ =~= keyword_spelling(Keyword::Nil));
    if same_word(w, spelled.as_slice()) {
        return Some(Keyword::Nil);
    }
    let spelled: [u8; 3] = ['n' as u8, 'o' as u8, 't' as u8];
    assert(spelled@ =~= keyword_spelling(Keyword::Not));
    if same_word(w, spelled.as_slice()) {
        return Some(Keyword::Not);
    }
    let spelled: [u8; 2] = ['o' as u8, 'r' as u8];
    assert(spelled@ =~= keyword_spelling(Keyword::Or));
    if same_word(w, spelled.as_slice()) {
        return Some(Keyword::Or);
    }
    let spelled: [u8; 6] = ['r' as u8, 'e' as u8, 'p' as u8, 'e' as u8, 'a' as u8, 't' as u8];
    assert(spelled@ =~= keyword_spelling(Keyword::Repeat));
    if same_word(w, spelled.as_slice()) {
        return Some(Keyword::Repeat);
    }
    let spelled: [u8; 6] = ['r' as u8, 'e' as u8, 't' as u8, 'u' as u8, 'r' as u8, 'n' as u8];
    assert(spelled@ =~= keyword_spelling(Keyword::Return));
    if same_word(w, spelled.as_slice()) {
        return Some(Keyword::Return);
    }
    let spelled: [u8; 4] = ['t' as u8, 'h' as u8, 'e' as u8, 'n' as u8];
    assert(spelled@ =~= keyword_spelling(Keyword::Then));
    if same_word(w, spelled.as_slice()) {
        return Some(Keyword::Then);
    }
    let spelled: [u8; 4] = ['t' as u8, 'r' as u8, 'u' as u8, 'e' as u8];
    assert(spelled@ =~= keyword_spelling(Keyword::True));
    if same_word(w, spelled.as_slice()) {
        return Some(Keyword::True);
    }
    let spelled: [u8; 5] = ['u' as u8, 'n' as u8, 't' as u8, 'i' as u8, 'l' as u8];
    assert(spelled@ =~= keyword_spelling(Keyword::Until));
    if same_word(w, spelled.as_slice()) {
        return Some(Keyword::Until);
    }
    let spelled: [u8; 5] = ['w' as u8, 'h' as u8, 'i' as u8, 'l' as u8, 'e' as u8];
    assert(spelled@ =~= keyword_spelling(Keyword::While));
    if same_word(w, spelled.as_slice()) {
        return Some(Keyword::While);
    }
    None
}

} // verus!
