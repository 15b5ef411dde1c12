//! JSON strings as RFC 8259 defines them: the grammar accepts the eight
//! two-character escapes, unescaping turns each into the character it stands for,
//! and member names are written as string literals that read back as the name.
use vstd::prelude::*;
use vstd::utf8::encode_utf8;
use crate::format::member_head;
use crate::grammar::{PState, parse_text, scan_string};
use crate::kind::JsonValueKind;
use crate::raw::{contents, unescape, unescape_from};
use crate::roundtrip::lemma_string_text_parses;

verus! {

/// `x` is the byte after the backslash of one of the eight two-character escapes of
/// RFC 8259: `\"`, `\\`, `\/`, `\b`, `\f`, `\n`, `\r`, `\t`.
pub open spec fn short_escape(x: u8) -> bool {
    x == 0x22 || x == 0x5c || x == 0x2f || x == 0x62 || x == 0x66 || x == 0x6e || x == 0x72
        || x == 0x74
}

/// Inside a string, the grammar reads each two-character escape as a unit and goes
/// on after it: the escape is accepted wherever it stands.
pub proof fn lemma_short_escape_accepted(t: Seq<u8>, st: PState, q: int, escaped: bool)
    requires
        0 <= q,
        q + 1 < t.len(),
        t[q] == 0x5c,
        short_escape(t[q + 1]),
    ensures
        scan_string(t, st, q, escaped) == scan_string(t, st, q + 2, true),
{
}

/// A text that is a string holding one two-character escape parses as exactly that
/// one string value.
pub proof fn lemma_short_escape_string_parses(x: u8, c: bool)
    requires
        short_escape(x),
    ensures
        parse_text(seq![0x22u8, 0x5cu8, x, 0x22u8], c) matches Ok((vals, _)) && vals.len() == 1
            && vals[0].kind == JsonValueKind::String && vals[0].start == 0 && vals[0].end == 4,
{
    let t = seq![0x22u8, 0x5cu8, x, 0x22u8];
    assert(t[0] == 0x22u8 && t[1] == 0x5cu8 && t[2] == x && t[3] == 0x22u8);
    reveal_with_fuel(crate::grammar::skip_ws, 2);
    reveal_with_fuel(crate::grammar::skip_wc, 2);
    reveal_with_fuel(scan_string, 3);
}

/// Unescaping reads each two-character escape as the character RFC 8259 gives it and
/// goes on after it: `\"` is `"`, `\\` is `\`, `\/` is `/`, `\b` is U+0008, `\f` is
/// U+000C, `\n` is U+000A, `\r` is U+000D and `\t` is U+0009.
pub proof fn lemma_unescape_short_escape(b: Seq<u8>, i: int)
    requires
        0 <= i,
        i + 1 < b.len(),
        b[i] == 0x5c,
        short_escape(b[i + 1]),
    ensures
        b[i + 1] == 0x22 ==> unescape_from(b, i) == seq!['"'] + unescape_from(b, i + 2),
        b[i + 1] == 0x5c ==> unescape_from(b, i) == seq!['\\'] + unescape_from(b, i + 2),
        b[i + 1] == 0x2f ==> unescape_from(b, i) == seq!['/'] + unescape_from(b, i + 2),
        b[i + 1] == 0x62 ==> unescape_from(b, i) == seq!['\u{8}'] + unescape_from(b, i + 2),
        b[i + 1] == 0x66 ==> unescape_from(b, i) == seq!['\u{c}'] + unescape_from(b, i + 2),
        b[i + 1] == 0x6e ==> unescape_from(b, i) == seq!['\n'] + unescape_from(b, i + 2),
        b[i + 1] == 0x72 ==> unescape_from(b, i) == seq!['\r'] + unescape_from(b, i + 2),
        b[i + 1] == 0x74 ==> unescape_from(b, i) == seq!['\t'] + unescape_from(b, i + 2),
{
}

/// Contents that are one two-character escape unescape to the one character it
/// stands for; `\/` to `/`.
pub proof fn lemma_unescape_lone_escape(x: u8)
    requires
        short_escape(x),
    ensures
        x == 0x2f ==> unescape(seq![0x5cu8, x]) == seq!['/'],
        x == 0x22 ==> unescape(seq![0x5cu8, x]) == seq!['"'],
        x == 0x5c ==> unescape(seq![0x5cu8, x]) == seq!['\\'],
        x == 0x6e ==> unescape(seq![0x5cu8, x]) == seq!['\n'],
{
    let b = seq![0x5cu8, x];
    lemma_unescape_short_escape(b, 0);
    assert(unescape_from(b, 2) =~= Seq::<char>::empty());
}

/// A member name is written as a JSON string literal: the text between the separator
/// (which holds no quote) and the colon parses on its own as exactly one string value
/// whose contents read back as the name.
pub proof fn lemma_member_name_literal(
    name: Seq<char>,
    first: bool,
    indent_size: usize,
    spacing: bool,
    level: usize,
)
    ensures
        exists|lead: Seq<char>, lit: Seq<char>|
            #![trigger lead + lit]
            member_head(name, first, indent_size, spacing, level) == lead + lit + seq![':'] + (if spacing {
                seq![' ']
            } else {
                Seq::<char>::empty()
            }) && !lead.contains('"') && (parse_text(encode_utf8(lit), false) matches Ok((vals, _))
                && vals.len() == 1 && vals[0].kind == JsonValueKind::String && vals[0].start == 0
                && vals[0].end == encode_utf8(lit).len() && unescape(
                contents(encode_utf8(lit), vals[0]),
            ) == name),
{
    let sep = if !first {
        seq![','] + (if spacing && indent_size == 0 {
            seq![' ']
        } else {
            Seq::<char>::empty()
        })
    } else if spacing && indent_size == 0 {
        seq![' ']
    } else {
        Seq::<char>::empty()
    };
    let lead = sep + crate::format::indentation(indent_size, level);
    let lit = crate::format::quoted(name);
    lemma_string_text_parses(name, false);
    assert forall|k: int| 0 <= k < lead.len() implies lead[k] != '"' by {
        if k >= sep.len() {
            assert(lead[k] == crate::format::indentation(indent_size, level)[k - sep.len()]);
        }
    }
    assert(member_head(name, first, indent_size, spacing, level) =~= lead + lit + seq![':'] + (
    if spacing {
        seq![' ']
    } else {
        Seq::<char>::empty()
    }));
}

} // verus!
