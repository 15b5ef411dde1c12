//! Building text: appending characters, strings and decimal numbers to a `String`.
use vstd::prelude::*;
use vstd::string::StringExecFns;

verus! {

/// `String::push`: std documents that it appends `c` to the end of `s`.
#[verifier::external_body]
pub(crate) fn string_push(s: &mut String, c: char)
    ensures
        final(s)@ == old(s)@.push(c),
{
    s.push(c);
}

/// The character of the decimal digit `d`.
pub open spec fn digit_char(d: int) -> char {
    (0x30 + d) as char
}

/// The decimal digits of `n`, most significant first, without leading zeros.
pub open spec fn decimal(n: nat) -> Seq<char>
    decreases n,
{
    if n < 10 {
        seq![digit_char(n as int)]
    } else {
        decimal(n / 10).push(digit_char((n % 10) as int))
    }
}

/// Appends `t` to the end of `s`.
pub(crate) fn string_push_str(s: &mut String, t: &str)
    ensures
        final(s)@ == old(s)@ + t@,
{
    s.append(t);
}

/// Appends the decimal digits of `n`.
pub(crate) fn write_decimal(s: &mut String, n: u128)
    ensures
        final(s)@ == old(s)@ + decimal(n as nat),
    decreases n,
{
    let ghost o = s@;
    if n >= 10 {
        write_decimal(s, n / 10);
    }
    let d = (n % 10) as u8;
    let c = (0x30u8 + d) as char;
    string_push(s, c);
    proof {
        assert(c == digit_char((n % 10) as int));
        if n >= 10 {
            assert(o + decimal(n as nat) =~= (o + decimal((n / 10) as nat)).push(
                digit_char((n % 10) as int),
            ));
        } else {
            assert(decimal(n as nat) =~= seq![digit_char(n as int)]);
        }
    }
}

/// `x` is the code of a `char`: below the surrogates, or above them up to U+10FFFF.
pub open spec fn is_char_code(x: u32) -> bool {
    x < 0xd800 || (0xe000 <= x && x <= 0x10ffff)
}

/// `char::from_u32`: std documents that it gives the `char` whose code is `x`, or
/// `None` when `x` is a surrogate or beyond U+10FFFF.
#[verifier::external_body]
pub(crate) fn char_from_u32(x: u32) -> (r: Option<char>)
    ensures
        is_char_code(x) ==> r == Some(x as char),
        !is_char_code(x) ==> r is None,
{
    char::from_u32(x)
}

} // verus!
