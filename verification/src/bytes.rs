//! Byte classes, runs of bytes, digit values and the UTF-8 facts that the
//! scanners rely on.

use vstd::prelude::*;
use vstd::utf8::*;

verus! {

/// The classes of bytes whose runs the scanners count.
#[derive(Clone, Copy, Debug, PartialEq, Eq)]
pub enum ByteClass {
    /// `[A-Za-z0-9_]`
    IdentChar,
    /// `[0-9]`
    Digit,
    /// `[0-9A-Fa-f]`
    HexDigit,
    /// `=`
    Equals,
}

pub open spec fn is_digit(c: u8) -> bool {
    '0' as u8 <= c <= '9' as u8
}

pub open spec fn is_lower_hex_letter(c: u8) -> bool {
    'a' as u8 <= c <= 'f' as u8
}

pub open spec fn is_upper_hex_letter(c: u8) -> bool {
    'A' as u8 <= c <= 'F' as u8
}

pub open spec fn is_hex_digit(c: u8) -> bool {
    is_digit(c) || is_lower_hex_letter(c) || is_upper_hex_letter(c)
}

pub open spec fn is_alpha(c: u8) -> bool {
    ('a' as u8 <= c <= 'z' as u8) || ('A' as u8 <= c <= 'Z' as u8)
}

/// A byte that may begin an identifier or a keyword.
pub open spec fn is_ident_start(c: u8) -> bool {
    is_alpha(c) || c == '_' as u8
}

/// A byte that may continue an identifier or a keyword.
pub open spec fn is_ident_char(c: u8) -> bool {
    is_alpha(c) || is_digit(c) || c == '_' as u8
}

pub open spec fn in_class(c: u8, k: ByteClass) -> bool {
    match k {
        ByteClass::IdentChar => is_ident_char(c),
        ByteClass::Digit => is_digit(c),
        ByteClass::HexDigit => is_hex_digit(c),
        ByteClass::Equals => c == '=' as u8,
    }
}

/// The number of consecutive bytes of class `k` in `b` from index `i` on.
pub open spec fn run_len(b: Seq<u8>, i: int, k: ByteClass) -> nat
    decreases b.len() - i,
{
    if 0 <= i < b.len() && in_class(b[i], k) {
        1 + run_len(b, i + 1, k)
    } else {
        0
    }
}

/// The index of the first byte equal to `x` in `b` at or after `i`.
pub open spec fn find_byte(b: Seq<u8>, i: int, x: u8) -> Option<int>
    decreases b.len() - i,
{
    if 0 <= i < b.len() {
        if b[i] == x {
            Some(i)
        } else {
            find_byte(b, i + 1, x)
        }
    } else {
        None
    }
}

/// The value of a decimal or hexadecimal digit.
pub open spec fn digit_value(c: u8) -> nat {
    if is_digit(c) {
        (c - '0' as u8) as nat
    } else if is_lower_hex_letter(c) {
        (c - 'a' as u8 + 10) as nat
    } else if is_upper_hex_letter(c) {
        (c - 'A' as u8 + 10) as nat
    } else {
        0
    }
}

/// The number that the digits `s` denote, in base 16 when `hex` holds and in
/// base 10 otherwise.
pub open spec fn digits_value(s: Seq<u8>, hex: bool) -> nat
    decreases s.len(),
{
    if s.len() == 0 {
        0
    } else if hex {
        digits_value(s.drop_last(), hex) * 16 + digit_value(s.last())
    } else {
        digits_value(s.drop_last(), hex) * 10 + digit_value(s.last())
    }
}

/// The Unicode `White_Space` property.
pub open spec fn is_white_space(c: u32) -> bool {
    ||| 0x09 <= c <= 0x0D
    ||| c == 0x20
    ||| c == 0x85
    ||| c == 0xA0
    ||| c == 0x1680
    ||| 0x2000 <= c <= 0x200A
    ||| c == 0x2028
    ||| c == 0x2029
    ||| c == 0x202F
    ||| c == 0x205F
    ||| c == 0x3000
}

/// The number of bytes that the UTF-8 encoded `White_Space` characters at the
/// front of `b` take.
pub open spec fn white_space_prefix_len(b: Seq<u8>) -> nat
    decreases b.len(),
{
    if b.len() > 0 && valid_first_scalar(b) && is_white_space(decode_first_scalar(b)) {
        let l = length_of_first_scalar(b);
        (l + white_space_prefix_len(b.skip(l))) as nat
    } else {
        0
    }
}

pub fn class_has(c: u8, k: ByteClass) -> (r: bool)
    ensures
        r == in_class(c, k),
{
    match k {
        ByteClass::IdentChar => ('a' as u8 <= c && c <= 'z' as u8) || ('A' as u8 <= c && c
            <= 'Z' as u8) || ('0' as u8 <= c && c <= '9' as u8) || c == '_' as u8,
        ByteClass::Digit => '0' as u8 <= c && c <= '9' as u8,
        ByteClass::HexDigit => ('0' as u8 <= c && c <= '9' as u8) || ('a' as u8 <= c && c
            <= 'f' as u8) || ('A' as u8 <= c && c <= 'F' as u8),
        ByteClass::Equals => c == '=' as u8,
    }
}

/// Counts the bytes of class `k` in `b` from `start` on.
pub fn count_run(b: &[u8], start: usize, k: ByteClass) -> (n: usize)
    requires
        start <= b@.len(),
    ensures
        n == run_len(b@, start as int, k),
        start + n <= b@.len(),
{
    let mut j = start;
    while j < b.len() && class_has(b[j], k)
        invariant
            start <= j <= b@.len(),
            run_len(b@, start as int, k) == (j - start) + run_len(b@, j as int, k),
        decreases b@.len() - j,
    {
        j = j + 1;
    }
    j - start
}

/// Finds the first byte equal to `x` in `b` at or after `start`.
pub fn find_first(b: &[u8], start: usize, x: u8) -> (r: Option<usize>)
    requires
        start <= b@.len(),
    ensures
        r matches Some(p) ==> find_byte(b@, start as int, x) == Some(p as int),
        r is None ==> find_byte(b@, start as int, x) is None,
{
    let mut j = start;
    while j < b.len()
        invariant
            start <= j <= b@.len(),
            find_byte(b@, start as int, x) == find_byte(b@, j as int, x),
        decreases b@.len() - j,
    {
        if b[j] == x {
            return Some(j);
        }
        j = j + 1;
    }
    None
}

pub proof fn lemma_run_len_bounds(b: Seq<u8>, i: int, k: ByteClass)
    requires
        0 <= i <= b.len(),
    ensures
        i + run_len(b, i, k) <= b.len(),
        forall|j: int| i <= j < i + run_len(b, i, k) ==> #[trigger] in_class(b[j], k),
        i + run_len(b, i, k) < b.len() ==> !in_class(b[i + run_len(b, i, k)], k),
    decreases b.len() - i,
{
    if i < b.len() && in_class(b[i], k) {
        lemma_run_len_bounds(b, i + 1, k);
    }
}

/// A run that ends inside the first `m` bytes is the same run in them.
pub proof fn lemma_run_len_take(b: Seq<u8>, m: int, i: int, k: ByteClass)
    requires
        0 <= i <= m <= b.len(),
        i + run_len(b, i, k) <= m,
    ensures
        run_len(b.take(m), i, k) == run_len(b, i, k),
    decreases m - i,
{
    if i < m && in_class(b[i], k) {
        lemma_run_len_take(b, m, i + 1, k);
    }
}

pub proof fn lemma_find_byte(b: Seq<u8>, i: int, x: u8)
    requires
        0 <= i,
    ensures
        find_byte(b, i, x) matches Some(p) ==> i <= p < b.len() && b[p] == x && forall|j: int|
            i <= j < p ==> b[j] != x,
        find_byte(b, i, x) is None ==> forall|j: int| i <= j < b.len() ==> b[j] != x,
    decreases b.len() - i,
{
    if 0 <= i < b.len() && b[i] != x {
        lemma_find_byte(b, i + 1, x);
    }
}

pub proof fn lemma_white_space_prefix_len(b: Seq<u8>)
    ensures
        white_space_prefix_len(b) <= b.len(),
    decreases b.len(),
{
    if b.len() > 0 && valid_first_scalar(b) && is_white_space(decode_first_scalar(b)) {
        let l = length_of_first_scalar(b);
        lemma_white_space_prefix_len(b.skip(l));
    }
}

/// Extending a string of digits by one digit multiplies its value by the
/// base and adds the digit.
pub proof fn lemma_digits_value_push(s: Seq<u8>, i: int, hex: bool)
    requires
        0 <= i < s.len(),
    ensures
        digits_value(s.take(i + 1), hex) == if hex {
            digits_value(s.take(i), hex) * 16 + digit_value(s[i])
        } else {
            digits_value(s.take(i), hex) * 10 + digit_value(s[i])
        },
{
    assert(s.take(i + 1).drop_last() =~= s.take(i));
}

/// The value of a string of digits is at least the value of any prefix.
pub proof fn lemma_digits_value_prefix(s: Seq<u8>, i: int, hex: bool)
    requires
        0 <= i <= s.len(),
    ensures
        digits_value(s.take(i), hex) <= digits_value(s, hex),
    decreases s.len() - i,
{
    if i < s.len() {
        lemma_digits_value_push(s, i, hex);
        lemma_digits_value_prefix(s, i + 1, hex);
    } else {
        assert(s.take(i) =~= s);
    }
}

/// In valid UTF-8, an ASCII byte starts a character, and so does the byte
/// after it.
pub proof fn lemma_ascii_boundaries(b: Seq<u8>, i: int)
    requires
        valid_utf8(b),
        0 <= i < b.len(),
        b[i] < 0x80,
    ensures
        is_char_boundary(b, i),
        is_char_boundary(b, i + 1),
    decreases b.len(),
{
    is_char_boundary_iff_not_is_continuation_byte(b, i);
    let l = length_of_first_scalar(b);
    if i == 0 {
        assert(l == 1);
        assert(is_char_boundary(pop_first_scalar(b), 0));
    } else {
        assert(l <= i);
        let p = pop_first_scalar(b);
        assert(p[i - l] == b[i]);
        lemma_ascii_boundaries(p, i - l);
    }
}

} // verus!
