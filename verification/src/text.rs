//! Text building blocks shared by the renderer and the command line: the
//! characters XML can carry, decimal numerals, quoted strings and appends.

use vstd::prelude::*;
use vstd::string::StringExecFns;

verus! {

/// Whether XML 1.0 can represent `c`: tab, line feed, carriage return and
/// the scalar values from U+0020 on, except U+FFFE and U+FFFF.
pub open spec fn xml_allowed(c: char) -> bool {
    let u = c as u32;
    ||| u == 0x9
    ||| u == 0xA
    ||| u == 0xD
    ||| 0x20 <= u <= 0xD7FF
    ||| 0xE000 <= u <= 0xFFFD
    ||| 0x10000 <= u <= 0x10FFFF
}

/// `c` itself if XML can represent it, else U+FFFD.
pub open spec fn replace_invalid(c: char) -> char {
    if xml_allowed(c) {
        c
    } else {
        '\u{FFFD}'
    }
}

/// `s` with every character XML cannot represent replaced by U+FFFD.
pub open spec fn normalized(s: Seq<char>) -> Seq<char> {
    s.map_values(|c: char| replace_invalid(c))
}

/// Appends `c` to `s`.
///
/// Calls `String::push`, which appends the character to the end of the
/// string.
#[verifier::external_body]
pub(crate) fn push_char(s: &mut String, c: char)
    ensures
        final(s)@ == old(s)@.push(c),
{
    s.push(c);
}

/// The decimal digit for `d < 10`.
pub open spec fn digit(d: nat) -> char {
    (d + 48) as char
}

/// The decimal numeral of `n`, without leading zeros: how `Display` writes
/// an unsigned integer.
pub open spec fn decimal(n: nat) -> Seq<char>
    decreases n,
{
    if n < 10 {
        seq![digit(n)]
    } else {
        decimal(n / 10).push(digit(n % 10))
    }
}

/// Appends the decimal numeral of `n` to `out`.
pub fn push_decimal(out: &mut String, n: u64)
    ensures
        final(out)@ == old(out)@ + decimal(n as nat),
    decreases n,
{
    if n >= 10 {
        push_decimal(out, n / 10);
    }
    let d: u8 = (n % 10) as u8;
    let c = (d + 48u8) as char;
    push_char(out, c);
    assert(final(out)@ == old(out)@ + decimal(n as nat));
}

/// The decimal numeral of `n`.
pub fn decimal_string(n: u64) -> (s: String)
    ensures
        s@ == decimal(n as nat),
{
    let mut s = String::new();
    push_decimal(&mut s, n);
    assert(s@ =~= decimal(n as nat));
    s
}

/// How `Debug` writes a string: in double quotes, with quotes, backslashes
/// and control characters escaped.
pub uninterp spec fn debug_quoted(s: Seq<char>) -> Seq<char>;

/// Renders `s` as `Debug` does.
///
/// Calls `<str as Debug>::fmt` through `format!`; the result is named by
/// `debug_quoted` and depends on `s` alone.
#[verifier::external_body]
pub(crate) fn quoted(s: &str) -> (q: String)
    ensures
        q@ == debug_quoted(s@),
{
    format!("{s:?}")
}

} // verus!
