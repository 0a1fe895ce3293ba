//! Numeric literals: decimal, or hexadecimal, binary and octal with a prefix.

use vstd::prelude::*;

verus! {

/// What `parse_int::parse::<u32>` returns for a text, as an `Option`.
pub uninterp spec fn parsed_u32(s: Seq<char>) -> Option<u32>;

/// The value of a digit character in `base`, if it is one: `0` to `9`, then
/// `a` to `f` or `A` to `F` for ten to fifteen.
pub open spec fn digit_value(c: char, base: nat) -> Option<nat> {
    let u = c as u32;
    let d: int = if 48 <= u <= 57 {
        u - 48
    } else if 97 <= u <= 102 {
        u - 87
    } else if 65 <= u <= 70 {
        u - 55
    } else {
        base as int
    };
    if d < base {
        Some(d as nat)
    } else {
        None
    }
}

/// The number that a text of digits in `base` denotes, most significant
/// first; none if some character is not such a digit.
pub open spec fn digits_value(s: Seq<char>, base: nat) -> Option<nat>
    decreases s.len(),
{
    if s.len() == 0 {
        Some(0)
    } else {
        match (digits_value(s.drop_last(), base), digit_value(s.last(), base)) {
            (Some(v), Some(d)) => Some(v * base + d),
            _ => None,
        }
    }
}

/// The number that a plain literal denotes: one or more digits, after a
/// `0x`, `0b` or `0o` prefix (either case) or, without a prefix, decimal.
/// Texts of any other shape give none here.
pub open spec fn plain_literal(s: Seq<char>) -> Option<nat> {
    if s.len() > 2 && s[0] == '0' && (s[1] == 'x' || s[1] == 'X') {
        digits_value(s.subrange(2, s.len() as int), 16)
    } else if s.len() > 2 && s[0] == '0' && (s[1] == 'b' || s[1] == 'B') {
        digits_value(s.subrange(2, s.len() as int), 2)
    } else if s.len() > 2 && s[0] == '0' && (s[1] == 'o' || s[1] == 'O') {
        digits_value(s.subrange(2, s.len() as int), 8)
    } else if s.len() > 0 {
        digits_value(s, 10)
    } else {
        None
    }
}

/// Relies on `parse_int::parse::<u32>`: trims the text, reads an optional
/// `0x`, `0b` or `0o` prefix, drops underscores and reads the digits with
/// `u32::from_str_radix`, which fails on a value above `u32::MAX`. Without the
/// crate's `implicit-octal` feature, which is off by default, a text without a
/// prefix is read as decimal.
/// A text with a minus sign is left out: the crate negates a value read after
/// one by multiplying with `0 - 1`, which overflows for an unsigned type.
#[verifier::external_body]
fn parse_u32(s: &str) -> (r: Option<u32>)
    requires
        !s@.contains('-'),
    ensures
        r == parsed_u32(s@),
        match plain_literal(s@) {
            Some(v) => r == if v <= u32::MAX {
                Some(v as u32)
            } else {
                None
            },
            None => true,
        },
{
    parse_int::parse::<u32>(s).ok()
}

/// The unsigned 32-bit value that a literal denotes, if any. A literal with a
/// minus sign denotes none.
pub open spec fn literal_value(s: Seq<char>) -> Option<u32> {
    if s.contains('-') {
        None
    } else {
        parsed_u32(s)
    }
}

/// Whether `s` holds the character `c`.
pub fn has_char(s: &str, c: char) -> (r: bool)
    ensures
        r == s@.contains(c),
{
    let n = s.unicode_len();
    let mut i: usize = 0;
    while i < n
        invariant
            n == s@.len(),
            0 <= i <= n,
            forall|j: int| 0 <= j < i ==> s@[j] != c,
        decreases n - i,
    {
        if s.get_char(i) == c {
            return true;
        }
        i = i + 1;
    }
    false
}

proof fn lemma_digits_have_no_minus(s: Seq<char>, base: nat)
    requires
        digits_value(s, base) is Some,
    ensures
        forall|i: int| 0 <= i < s.len() ==> s[i] != '-',
    decreases s.len(),
{
    if s.len() > 0 {
        lemma_digits_have_no_minus(s.drop_last(), base);
        assert forall|i: int| 0 <= i < s.len() implies s[i] != '-' by {
            if i < s.len() - 1 {
                assert(s[i] == s.drop_last()[i]);
            } else {
                assert(digit_value(s.last(), base) is Some);
            }
        }
    }
}

proof fn lemma_plain_has_no_minus(s: Seq<char>)
    requires
        plain_literal(s) is Some,
    ensures
        !s.contains('-'),
{
    if s.len() > 2 && s[0] == '0' && (s[1] == 'x' || s[1] == 'X' || s[1] == 'b' || s[1] == 'B'
        || s[1] == 'o' || s[1] == 'O') {
        let rest = s.subrange(2, s.len() as int);
        let base: nat = if s[1] == 'x' || s[1] == 'X' {
            16
        } else if s[1] == 'b' || s[1] == 'B' {
            2
        } else {
            8
        };
        lemma_digits_have_no_minus(rest, base);
        assert forall|i: int| 0 <= i < s.len() implies s[i] != '-' by {
            if i >= 2 {
                assert(s[i] == rest[i - 2]);
            }
        }
    } else {
        lemma_digits_have_no_minus(s, 10);
    }
}

/// Reads a literal as an unsigned 32-bit value.
pub fn parse_literal(s: &str) -> (r: Option<u32>)
    ensures
        r == literal_value(s@),
        match plain_literal(s@) {
            Some(v) => r == if v <= u32::MAX {
                Some(v as u32)
            } else {
                None
            },
            None => true,
        },
{
    proof {
        if plain_literal(s@) is Some {
            lemma_plain_has_no_minus(s@);
        }
    }
    if has_char(s, '-') {
        None
    } else {
        parse_u32(s)
    }
}

} // verus!
