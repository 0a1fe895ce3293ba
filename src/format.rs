//! Numeric rendering styles and the digit strings they produce.

use vstd::prelude::*;

verus! {

use vstd::arithmetic::div_mod::lemma_div_decreases;

/// Appending one character to a `String`.
pub assume_specification[ String::push ](s: &mut String, ch: char)
    ensures
        final(s)@ == old(s)@.push(ch),
;

/// The character of a digit below sixteen, with upper-case letters.
pub open spec fn digit_char(d: nat) -> char {
    seq!['0', '1', '2', '3', '4', '5', '6', '7', '8', '9', 'A', 'B', 'C', 'D', 'E', 'F'][d as int]
}

/// The digits of `n` in `base`, most significant first, without leading zeros
/// (zero is the single digit `0`).
pub open spec fn digits(n: nat, base: nat) -> Seq<char>
    decreases n,
    via digits_decreases
{
    if base < 2 || n < base {
        seq![digit_char(n)]
    } else {
        digits(n / base, base).push(digit_char(n % base))
    }
}

#[via_fn]
proof fn digits_decreases(n: nat, base: nat) {
    if !(base < 2 || n < base) {
        lemma_div_decreases(n as int, base as int);
    }
}

fn digit(d: u32) -> (r: char)
    requires
        d < 16,
    ensures
        r == digit_char(d as nat),
{
    match d {
        0 => '0',
        1 => '1',
        2 => '2',
        3 => '3',
        4 => '4',
        5 => '5',
        6 => '6',
        7 => '7',
        8 => '8',
        9 => '9',
        10 => 'A',
        11 => 'B',
        12 => 'C',
        13 => 'D',
        14 => 'E',
        _ => 'F',
    }
}

/// Appends the digits of `n` in `base` to `out`.
pub fn push_digits(out: &mut String, n: u32, base: u32)
    requires
        2 <= base <= 16,
    ensures
        final(out)@ == old(out)@ + digits(n as nat, base as nat),
    decreases n,
{
    if n < base {
        out.push(digit(n));
    } else {
        proof {
            lemma_div_decreases(n as int, base as int);
        }
        push_digits(out, n / base, base);
        out.push(digit(n % base));
    }
}

} // verus!

verus! {

/// Rendering styles for a number.
#[derive(Debug, Clone, Copy, PartialEq, Eq, Structural)]
pub enum PrintPreference {
    Bin,
    Hex,
    Decimal,
}

/// What `str::to_lowercase` returns for a text.
pub uninterp spec fn lower_of(s: Seq<char>) -> Seq<char>;

/// Whether every character of `s` is ASCII.
pub open spec fn all_ascii(s: Seq<char>) -> bool {
    forall|i: int| 0 <= i < s.len() ==> (s[i] as u32) < 128
}

/// The lower-case form of an ASCII capital `A` to `Z`; any other character
/// is kept.
pub open spec fn ascii_lower_char(c: char) -> char {
    if 65 <= (c as u32) <= 90 {
        seq![
            'a', 'b', 'c', 'd', 'e', 'f', 'g', 'h', 'i', 'j', 'k', 'l', 'm',
            'n', 'o', 'p', 'q', 'r', 's', 't', 'u', 'v', 'w', 'x', 'y', 'z',
        ][(c as u32) - 65]
    } else {
        c
    }
}

/// `t` is `s` with the ASCII capitals `A` to `Z` replaced by `a` to `z`.
pub open spec fn ascii_lowered(s: Seq<char>, t: Seq<char>) -> bool {
    &&& t.len() == s.len()
    &&& forall|i: int| 0 <= i < s.len() ==> #[trigger] t[i] == ascii_lower_char(s[i])
}

/// Relies on `str::to_lowercase`: its result depends on the characters alone,
/// and on ASCII text it maps `A` to `Z` to `a` to `z` and keeps the rest.
#[verifier::external_body]
fn lowercase(s: &str) -> (r: String)
    ensures
        r@ == lower_of(s@),
        all_ascii(s@) ==> ascii_lowered(s@, r@),
{
    s.to_lowercase()
}

/// The style that an already lower-cased name selects; names that are not
/// recognised select hexadecimal.
pub open spec fn preference_named(lowered: Seq<char>) -> PrintPreference {
    if lowered == "bin"@ || lowered == "binary"@ {
        PrintPreference::Bin
    } else if lowered == "dec"@ || lowered == "decimal"@ {
        PrintPreference::Decimal
    } else {
        PrintPreference::Hex
    }
}

/// The style selected by an optional name, compared without regard to case;
/// no name selects hexadecimal.
pub open spec fn preference_of(text: Option<Seq<char>>) -> PrintPreference {
    match text {
        Some(t) => preference_named(lower_of(t)),
        None => PrintPreference::Hex,
    }
}

/// The text of `val` in a style: `0b` and binary digits, `0x` and upper-case
/// hexadecimal digits, or plain decimal digits.
pub open spec fn rendered(p: PrintPreference, val: nat) -> Seq<char> {
    match p {
        PrintPreference::Bin => seq!['0', 'b'] + digits(val, 2),
        PrintPreference::Hex => seq!['0', 'x'] + digits(val, 16),
        PrintPreference::Decimal => digits(val, 10),
    }
}

/// Whether `s` holds exactly the characters of `t`.
pub fn same_text(s: &str, t: &str) -> (r: bool)
    ensures
        r == (s@ == t@),
{
    let n = s.unicode_len();
    if n != t.unicode_len() {
        return false;
    }
    let mut i: usize = 0;
    while i < n
        invariant
            n == s@.len(),
            n == t@.len(),
            0 <= i <= n,
            forall|j: int| 0 <= j < i ==> s@[j] == t@[j],
        decreases n - i,
    {
        if s.get_char(i) != t.get_char(i) {
            return false;
        }
        i = i + 1;
    }
    assert(s@ =~= t@);
    true
}

impl PrintPreference {
    /// The style that an already lower-cased name selects.
    pub fn from_lowered(lowered: &str) -> (r: PrintPreference)
        ensures
            r == preference_named(lowered@),
    {
        if same_text(lowered, "bin") || same_text(lowered, "binary") {
            PrintPreference::Bin
        } else if same_text(lowered, "dec") || same_text(lowered, "decimal") {
            PrintPreference::Decimal
        } else {
            PrintPreference::Hex
        }
    }

    /// The style that a name selects, compared without regard to case.
    pub fn from_text(s: &str) -> (r: PrintPreference)
        ensures
            r == preference_named(lower_of(s@)),
            all_ascii(s@) ==> ascii_lowered(s@, lower_of(s@)),
    {
        let lowered = lowercase(s);
        PrintPreference::from_lowered(lowered.as_str())
    }

    /// The style that an optional name selects; none selects hexadecimal.
    pub fn from_option(s: Option<&String>) -> (r: PrintPreference)
        ensures
            r == preference_of(
                match s {
                    Some(t) => Some(t@),
                    None => None,
                },
            ),
    {
        match s {
            Some(t) => PrintPreference::from_text(t.as_str()),
            None => PrintPreference::Hex,
        }
    }

    /// Renders `val` in this style.
    pub fn format_val(&self, val: u32) -> (r: String)
        ensures
            r@ == rendered(*self, val as nat),
    {
        let mut out = String::new();
        match self {
            PrintPreference::Bin => {
                out.push('0');
                out.push('b');
                push_digits(&mut out, val, 2);
            },
            PrintPreference::Hex => {
                out.push('0');
                out.push('x');
                push_digits(&mut out, val, 16);
            },
            PrintPreference::Decimal => {
                push_digits(&mut out, val, 10);
            },
        }
        assert(out@ =~= rendered(*self, val as nat));
        out
    }
}

} // verus!
