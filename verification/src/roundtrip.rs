//! What the formatter writes reads back: string literals and integers.
use vstd::prelude::*;
use vstd::utf8::{
    encode_utf8,
    decode_utf8,
    valid_utf8,
    encode_scalar,
    encode_utf8_valid_utf8,
    encode_utf8_decode_utf8,
    decode_utf8_encode_utf8,
    valid_utf8_concat,
    char_u32_cast,
    has_width_1_encoding,
};
use crate::convert::{digits_value, false_bytes, lexeme_value, read_integer, true_bytes};
use crate::format::{escape, escape_char, hex_char, integer_text, quoted};
use crate::strings::{decimal, digit_char};
use crate::grammar::{
    Entry, PErr, PState, hex4, hex_value, is_digit, is_plain_string_byte, lemma_count_digits,
    lemma_scan_skip, parse_text, scan_string, skip_ws,
};
use crate::kind::JsonValueKind;
use crate::raw::{contents, escape_at, next_backslash, unescape, unescape_from};

verus! {

broadcast use encode_utf8_valid_utf8, valid_utf8_concat;

/// Encoding a concatenation encodes each part.
pub proof fn lemma_encode_concat(a: Seq<char>, b: Seq<char>)
    ensures
        encode_utf8(a + b) == encode_utf8(a) + encode_utf8(b),
    decreases a.len(),
{
    if a.len() == 0 {
        assert(a + b =~= b);
    } else {
        lemma_encode_concat(a.drop_first(), b);
        assert((a + b).drop_first() =~= a.drop_first() + b);
        assert(encode_utf8(a) + encode_utf8(b) =~= encode_scalar(a[0] as u32) + (encode_utf8(
            a.drop_first(),
        ) + encode_utf8(b)));
    }
}

/// Decoding a concatenation of valid encodings decodes each part.
pub proof fn lemma_decode_concat(x: Seq<u8>, y: Seq<u8>)
    requires
        valid_utf8(x),
        valid_utf8(y),
    ensures
        decode_utf8(x + y) == decode_utf8(x) + decode_utf8(y),
{
    decode_utf8_encode_utf8(x);
    decode_utf8_encode_utf8(y);
    lemma_encode_concat(decode_utf8(x), decode_utf8(y));
    encode_utf8_decode_utf8(decode_utf8(x) + decode_utf8(y));
}

proof fn lemma_low_byte(v: u32)
    by (bit_vector)
    requires
        v <= 0x7f,
    ensures
        (v & 0x7f) as u8 == v as u8,
        (v as u8) as u32 == v,
{
}

proof fn lemma_high_bits(y: u8)
    by (bit_vector)
    ensures
        0x80u8 | y >= 0x80,
        0xC0u8 | y >= 0x80,
        0xE0u8 | y >= 0x80,
        0xF0u8 | y >= 0x80,
{
}

/// The bytes of ASCII characters are their codes.
proof fn lemma_encode_ascii(cs: Seq<char>)
    requires
        forall|k: int| 0 <= k < cs.len() ==> (#[trigger] cs[k] as u32) < 0x80,
    ensures
        encode_utf8(cs).len() == cs.len(),
        forall|k: int| 0 <= k < cs.len() ==> #[trigger] encode_utf8(cs)[k] == cs[k] as u32 as u8,
    decreases cs.len(),
{
    if cs.len() > 0 {
        lemma_encode_ascii(cs.drop_first());
        lemma_low_byte(cs[0] as u32);
        assert forall|k: int| 0 <= k < cs.len() implies #[trigger] encode_utf8(cs)[k] == cs[k] as u32 as u8 by {
            if k > 0 {
                assert(encode_utf8(cs)[k] == encode_utf8(cs.drop_first())[k - 1]);
            }
        }
    }
}

/// No byte of the encoding of `c` is a backslash, unless `c` is one.
proof fn lemma_encode_no_backslash(c: char)
    requires
        c != '\\',
    ensures
        forall|k: int|
            0 <= k < encode_utf8(seq![c]).len() ==> #[trigger] encode_utf8(seq![c])[k] != 0x5c,
{
    let v = c as u32;
    assert(encode_utf8(seq![c]) =~= encode_scalar(v) + encode_utf8(seq![c].drop_first()));
    assert(seq![c].drop_first() =~= Seq::<char>::empty());
    assert(encode_utf8(seq![c]) =~= encode_scalar(v));
    if has_width_1_encoding(v) {
        lemma_low_byte(v);
    } else {
        lemma_high_bits(((v >> 6) & 0x1F) as u8);
        lemma_high_bits(((v >> 12) & 0x0F) as u8);
        lemma_high_bits(((v >> 18) & 0x7) as u8);
        lemma_high_bits((v & 0x3F) as u8);
        lemma_high_bits(((v >> 6) & 0x3F) as u8);
        lemma_high_bits(((v >> 12) & 0x3F) as u8);
    }
}

/// Escaping a concatenation escapes each part.
pub proof fn lemma_escape_concat(a: Seq<char>, b: Seq<char>)
    ensures
        escape(a + b) == escape(a) + escape(b),
    decreases b.len(),
{
    if b.len() == 0 {
        assert(a + b =~= a);
        assert(escape(b) =~= Seq::<char>::empty());
        assert(escape(a) + escape(b) =~= escape(a));
    } else {
        lemma_escape_concat(a, b.drop_last());
        assert((a + b).drop_last() =~= a + b.drop_last());
        assert((a + b).last() == b.last());
        assert(escape(a) + escape(b) =~= (escape(a) + escape(b.drop_last())) + escape_char(
            b.last(),
        ));
    }
}

/// The first backslash after a run without one is where the run ends.
proof fn lemma_backslash_after_run(w: Seq<u8>, i: int, e: int)
    requires
        0 <= i <= e <= w.len(),
        forall|k: int| i <= k < e ==> #[trigger] w[k] != 0x5c,
        e == w.len() || w[e] == 0x5c,
    ensures
        next_backslash(w, i) == e,
    decreases e - i,
{
    if i < e {
        lemma_backslash_after_run(w, i + 1, e);
    }
}

proof fn lemma_next_backslash_shift(a: Seq<u8>, b: Seq<u8>, i: int)
    requires
        0 <= i,
    ensures
        next_backslash(a + b, a.len() + i) == a.len() + next_backslash(b, i),
    decreases b.len() - i,
{
    if i < b.len() {
        assert((a + b)[a.len() + i] == b[i]);
        if b[i] != 0x5c {
            lemma_next_backslash_shift(a, b, i + 1);
        }
    }
}

proof fn lemma_hex4_shift(a: Seq<u8>, b: Seq<u8>, p: int)
    requires
        0 <= p,
    ensures
        hex4(a + b, a.len() + p) == hex4(b, p),
{
    if p + 4 <= b.len() {
        assert((a + b)[a.len() + p] == b[p]);
        assert((a + b)[a.len() + p + 1] == b[p + 1]);
        assert((a + b)[a.len() + p + 2] == b[p + 2]);
        assert((a + b)[a.len() + p + 3] == b[p + 3]);
    }
}

proof fn lemma_escape_at_shift(a: Seq<u8>, b: Seq<u8>, i: int)
    requires
        0 <= i,
    ensures
        escape_at(a + b, a.len() + i) == (match escape_at(b, i) {
            Some((c, k)) => Some((c, k + a.len())),
            None => None,
        }),
{
    let w = a + b;
    let n = a.len() as int;
    if i + 1 < b.len() {
        assert(w[n + i + 1] == b[i + 1]);
        lemma_hex4_shift(a, b, i + 2);
        lemma_hex4_shift(a, b, i + 8);
        if i + 12 <= b.len() {
            assert(w[n + i + 6] == b[i + 6]);
            assert(w[n + i + 7] == b[i + 7]);
        }
    }
}

/// Decoding from byte `a.len() + i` of `a + b` is decoding from byte `i` of `b`.
proof fn lemma_unescape_shift(a: Seq<u8>, b: Seq<u8>, i: int)
    requires
        0 <= i,
    ensures
        unescape_from(a + b, a.len() + i) == unescape_from(b, i),
    decreases b.len() - i,
{
    let w = a + b;
    let n = a.len() as int;
    if i < b.len() {
        assert(w[n + i] == b[i]);
        if b[i] != 0x5c {
            lemma_next_backslash_shift(a, b, i);
            let j = next_backslash(b, i);
            crate::raw::lemma_next_backslash(b, i);
            assert(w.subrange(n + i, n + j) =~= b.subrange(i, j));
            lemma_unescape_shift(a, b, j);
        } else {
            lemma_escape_at_shift(a, b, i);
            match escape_at(b, i) {
                Some((c, k)) => {
                    if i < k {
                        lemma_unescape_shift(a, b, k);
                    }
                },
                None => {},
            }
        }
    }
}

/// The byte of a lowercase hexadecimal digit reads back as its value.
proof fn lemma_hex_char(d: int)
    requires
        0 <= d < 16,
    ensures
        (hex_char(d) as u32) < 0x80,
        hex_value(hex_char(d) as u32 as u8) == d,
        crate::grammar::is_hex_digit(hex_char(d) as u32 as u8),
{
}

/// The escape of a character that is escaped starts with a backslash, is ASCII, and
/// reads back as the character.
proof fn lemma_escape_char_reads(c: char, rest: Seq<u8>)
    requires
        escape_char(c) != seq![c],
    ensures
        ({
            let e = encode_utf8(escape_char(c));
            &&& e.len() > 0
            &&& e[0] == 0x5c
            &&& escape_at(e + rest, 0) == Some((c, e.len() as int))
        }),
{
    let x = c as int;
    let s = escape_char(c);
    if x < 0x20 || x == 0x7f {
        if c != '\n' && c != '\r' && c != '\t' && x != 0x08 && x != 0x0c {
            lemma_hex_char(x / 16);
            lemma_hex_char(x % 16);
        }
    }
    assert(forall|k: int| 0 <= k < s.len() ==> (#[trigger] s[k] as u32) < 0x80);
    lemma_encode_ascii(s);
    let e = encode_utf8(s);
    let w = e + rest;
    assert(w[0] == e[0]);
    assert(w[1] == e[1]);
    if s.len() == 6 {
        assert(w[2] == e[2]);
        assert(w[3] == e[3]);
        assert(w[4] == e[4]);
        assert(w[5] == e[5]);
        assert(hex4(w, 2) == Some(x));
        char_u32_cast(c, x as u32);
    }
}

/// The escape of `seq![c] + t` is the escape of `c`, then that of `t`.
proof fn lemma_escape_first(c: char, t: Seq<char>)
    ensures
        encode_utf8(escape(seq![c] + t)) == encode_utf8(escape_char(c)) + encode_utf8(escape(t)),
{
    lemma_escape_concat(seq![c], t);
    assert(escape(seq![c]) =~= escape(Seq::<char>::empty()) + escape_char(c)) by {
        assert(seq![c].drop_last() =~= Seq::<char>::empty());
    }
    assert(escape(Seq::<char>::empty()) =~= Seq::<char>::empty());
    assert(escape(seq![c] + t) =~= escape_char(c) + escape(t));
    lemma_encode_concat(escape_char(c), escape(t));
}

/// A run without backslashes decodes as a whole.
proof fn lemma_unescape_run(x: Seq<u8>)
    requires
        valid_utf8(x),
        forall|k: int| 0 <= k < x.len() ==> #[trigger] x[k] != 0x5c,
    ensures
        unescape_from(x, 0) == decode_utf8(x),
{
    if x.len() > 0 {
        lemma_backslash_after_run(x, 0, x.len() as int);
        assert(x.subrange(0, x.len() as int) =~= x);
        assert(unescape_from(x, x.len() as int) =~= Seq::<char>::empty());
        assert(decode_utf8(x) + Seq::<char>::empty() =~= decode_utf8(x));
    } else {
        assert(decode_utf8(x) =~= Seq::<char>::empty());
    }
}

/// A plain character extends a run without backslashes.
proof fn lemma_extend_run(x: Seq<u8>, c: char)
    requires
        valid_utf8(x),
        forall|k: int| 0 <= k < x.len() ==> #[trigger] x[k] != 0x5c,
        c != '\\',
    ensures
        valid_utf8(x + encode_utf8(seq![c])),
        forall|k: int|
            0 <= k < (x + encode_utf8(seq![c])).len() ==> #[trigger] (x + encode_utf8(seq![c]))[k]
                != 0x5c,
        decode_utf8(x + encode_utf8(seq![c])) == decode_utf8(x) + seq![c],
{
    let e = encode_utf8(seq![c]);
    lemma_encode_no_backslash(c);
    let x2 = x + e;
    assert forall|k: int| 0 <= k < x2.len() implies #[trigger] x2[k] != 0x5c by {
        if k >= x.len() {
            assert(x2[k] == e[k - x.len()]);
        } else {
            assert(x2[k] == x[k]);
        }
    }
    lemma_decode_concat(x, e);
    encode_utf8_decode_utf8(seq![c]);
}

/// After a run `x`, an escaped character `c` and then bytes `bt` read as `c` and
/// what `bt` reads as.
proof fn lemma_escaped_step(x: Seq<u8>, c: char, bt: Seq<u8>)
    requires
        valid_utf8(x),
        forall|k: int| 0 <= k < x.len() ==> #[trigger] x[k] != 0x5c,
        escape_char(c) != seq![c],
    ensures
        unescape_from(x + (encode_utf8(escape_char(c)) + bt), 0) == decode_utf8(x) + (seq![c]
            + unescape_from(bt, 0)),
{
    let e = encode_utf8(escape_char(c));
    let w = x + (e + bt);
    let n = x.len() as int;
    lemma_escape_char_reads(c, bt);
    assert(w[n] == 0x5c) by {
        assert(w[n] == (e + bt)[0]);
        assert((e + bt)[0] == e[0]);
    }
    lemma_escape_at_shift(x, e + bt, 0);
    assert(escape_at(w, n) == Some((c, n + e.len())));
    lemma_unescape_shift(x + e, bt, 0);
    assert((x + e) + bt =~= w);
    assert(unescape_from(w, n) == seq![c] + unescape_from(bt, 0));
    if n > 0 {
        assert(w[0] == x[0]);
        lemma_backslash_after_run(w, 0, n);
        assert(w.subrange(0, n) =~= x);
        assert(unescape_from(w, 0) == decode_utf8(x) + unescape_from(w, n));
    } else {
        assert(decode_utf8(x) =~= Seq::<char>::empty());
        assert(decode_utf8(x) + (seq![c] + unescape_from(bt, 0)) =~= seq![c] + unescape_from(
            bt,
            0,
        ));
    }
}

/// Decoding a run of plain UTF-8 followed by the escape of `s` gives the run's
/// characters and then `s`.
proof fn lemma_unescape_escaped(x: Seq<u8>, s: Seq<char>)
    requires
        valid_utf8(x),
        forall|k: int| 0 <= k < x.len() ==> #[trigger] x[k] != 0x5c,
    ensures
        unescape_from(x + encode_utf8(escape(s)), 0) == decode_utf8(x) + s,
    decreases s.len(),
{
    if s.len() == 0 {
        assert(escape(s) =~= Seq::<char>::empty());
        assert(x + encode_utf8(escape(s)) =~= x);
        lemma_unescape_run(x);
        assert(decode_utf8(x) + s =~= decode_utf8(x));
    } else {
        let c = s[0];
        let t = s.drop_first();
        assert(s =~= seq![c] + t);
        lemma_escape_first(c, t);
        let e = encode_utf8(escape_char(c));
        let bt = encode_utf8(escape(t));
        if escape_char(c) == seq![c] {
            if c == '\\' {
                assert(false);
            }
            lemma_extend_run(x, c);
            lemma_unescape_escaped(x + e, t);
            assert((x + e) + bt =~= x + (e + bt));
            assert(decode_utf8(x) + seq![c] + t =~= decode_utf8(x) + s);
        } else {
            lemma_unescape_escaped(Seq::<u8>::empty(), t);
            assert(Seq::<u8>::empty() + bt =~= bt);
            assert(decode_utf8(Seq::<u8>::empty()) =~= Seq::<char>::empty());
            lemma_escaped_step(x, c, bt);
        }
        assert(x + encode_utf8(escape(s)) =~= x + (e + bt));
    }
}

/// The contents of the string literal written for `s` read back as `s`.
pub proof fn lemma_string_roundtrip(s: Seq<char>)
    ensures
        unescape(encode_utf8(escape(s))) == s,
{
    let x = Seq::<u8>::empty();
    lemma_unescape_escaped(x, s);
    assert(x + encode_utf8(escape(s)) =~= encode_utf8(escape(s)));
    assert(decode_utf8(x) =~= Seq::<char>::empty());
    assert(decode_utf8(x) + s =~= s);
}

/// The decimal digits of `m` are the characters `0` to `9`.
proof fn lemma_decimal_chars(m: nat)
    ensures
        decimal(m).len() > 0,
        forall|k: int| 0 <= k < decimal(m).len() ==> 0x30 <= (#[trigger] decimal(m)[k] as u32) <= 0x39,
    decreases m,
{
    if m >= 10 {
        lemma_decimal_chars(m / 10);
        let p = decimal(m / 10);
        let d = decimal(m);
        assert forall|k: int| 0 <= k < d.len() implies 0x30 <= (#[trigger] d[k] as u32) <= 0x39 by {
            if k < p.len() {
                assert(d[k] == p[k]);
            }
        }
    }
}

/// The bytes of the decimal digits of `m` are ASCII digits that read back as `m`.
proof fn lemma_decimal_bytes(m: nat)
    ensures
        encode_utf8(decimal(m)).len() == decimal(m).len() > 0,
        forall|k: int|
            0 <= k < encode_utf8(decimal(m)).len() ==> 0x30 <= #[trigger] encode_utf8(decimal(m))[k]
                <= 0x39,
        digits_value(encode_utf8(decimal(m))) == m,
    decreases m,
{
    let d = decimal(m);
    lemma_decimal_chars(m);
    lemma_encode_ascii(d);
    let b = encode_utf8(d);
    assert forall|k: int| 0 <= k < b.len() implies 0x30 <= #[trigger] b[k] <= 0x39 by {
        lemma_low_byte(d[k] as u32);
    }
    lemma_low_byte(d[d.len() - 1] as u32);
    if m >= 10 {
        let p = decimal(m / 10);
        lemma_decimal_bytes(m / 10);
        lemma_decimal_chars(m / 10);
        lemma_encode_ascii(p);
        assert(b.drop_last() =~= encode_utf8(p)) by {
            assert forall|k: int| 0 <= k < p.len() implies b[k] == encode_utf8(p)[k] by {
                assert(d[k] == p[k]);
            }
        }
        assert(d[d.len() - 1] == digit_char((m % 10) as int));
        assert(b.last() == 0x30 + m % 10);
        assert(digits_value(b) == digits_value(b.drop_last()) * 10 + (b.last() - 0x30) as nat);
        assert(digits_value(b.drop_last()) == m / 10);
        assert(m == (m / 10) * 10 + m % 10);
    } else {
        assert(d[0] == digit_char(m as int));
        assert(b.drop_last() =~= Seq::<u8>::empty());
        assert(digits_value(b) == digits_value(b.drop_last()) * 10 + (b.last() - 0x30) as nat);
        assert(b.last() == 0x30 + m);
    }
}

/// The text written for an integer in `[min, max]` reads back as that integer into a
/// type ranging over `[min, max]`.
pub proof fn lemma_integer_roundtrip(n: int, min: int, max: int)
    requires
        min <= n <= max,
    ensures
        read_integer(encode_utf8(integer_text(n)), min, max) == Ok::<int, Seq<char>>(n),
{
    let b = encode_utf8(integer_text(n));
    if n < 0 {
        let m = (-n) as nat;
        lemma_decimal_bytes(m);
        lemma_encode_concat(seq!['-'], decimal(m));
        assert(encode_utf8(seq!['-']) =~= seq![0x2du8]) by {
            lemma_encode_ascii(seq!['-']);
        }
        assert(b.drop_first() =~= encode_utf8(decimal(m)));
        assert(lexeme_value(b) == n);
    } else {
        lemma_decimal_bytes(n as nat);
        assert(b[0] != 0x2d);
        assert(lexeme_value(b) == n);
    }
}

/// Only `0` itself is written with a leading zero.
proof fn lemma_decimal_first(m: nat)
    ensures
        decimal(m).len() > 0,
        (decimal(m)[0] as u32 == 0x30) ==> m == 0,
    decreases m,
{
    if m >= 10 {
        lemma_decimal_first(m / 10);
        assert(decimal(m)[0] == decimal(m / 10)[0]);
    }
}

/// The text written for `n` is a JSON number: an optional minus sign, then digits
/// with no leading zero; each of these bytes is ASCII.
proof fn lemma_integer_text_bytes(n: int)
    ensures
        ({
            let t = encode_utf8(integer_text(n));
            let q0: int = if n < 0 {
                1
            } else {
                0
            };
            &&& q0 < t.len()
            &&& (n < 0 ==> t[0] == 0x2d)
            &&& (n >= 0 ==> is_digit(t[0]))
            &&& forall|k: int| q0 <= k < t.len() ==> is_digit(#[trigger] t[k])
            &&& (t[q0] == 0x30 ==> q0 + 1 == t.len())
        }),
{
    let t = encode_utf8(integer_text(n));
    let m: nat = if n < 0 {
        (-n) as nat
    } else {
        n as nat
    };
    lemma_decimal_bytes(m);
    lemma_decimal_first(m);
    lemma_decimal_chars(m);
    lemma_encode_ascii(decimal(m));
    lemma_low_byte(decimal(m)[0] as u32);
    let b = encode_utf8(decimal(m));
    assert(b[0] == 0x30 ==> m == 0);
    if m == 0 {
        assert(decimal(m).len() == 1);
    }
    if n < 0 {
        lemma_encode_concat(seq!['-'], decimal(m));
        assert(encode_utf8(seq!['-']) =~= seq![0x2du8]) by {
            lemma_encode_ascii(seq!['-']);
        }
        assert(t =~= seq![0x2du8] + b);
        assert forall|k: int| 1 <= k < t.len() implies is_digit(#[trigger] t[k]) by {
            assert(t[k] == b[k - 1]);
        }
    }
}

/// The text written for an integer parses as exactly one integer value spanning the
/// whole text, with no comments.
pub proof fn lemma_integer_text_parses(n: int, c: bool)
    ensures
        parse_text(encode_utf8(integer_text(n)), c) == Ok::<(Seq<Entry>, Seq<(int, int)>), PErr>(
            (
                seq![
                    Entry {
                        kind: JsonValueKind::Integer,
                        escaped: false,
                        start: 0,
                        end: encode_utf8(integer_text(n)).len() as int,
                        end_index: 1,
                    },
                ],
                Seq::<(int, int)>::empty(),
            ),
        ),
{
    let t = encode_utf8(integer_text(n));
    lemma_integer_text_bytes(n);
    let q0: int = if n < 0 {
        1
    } else {
        0
    };
    assert(skip_ws(t, 0) == 0);
    assert(skip_ws(t, t.len() as int) == t.len());
    if t[q0] != 0x30 {
        lemma_count_digits(t, q0, t.len() - q0);
    }
    assert(Seq::<Entry>::empty().push(
        Entry {
            kind: JsonValueKind::Integer,
            escaped: false,
            start: 0,
            end: t.len() as int,
            end_index: 1,
        },
    ) =~= seq![
        Entry {
            kind: JsonValueKind::Integer,
            escaped: false,
            start: 0,
            end: t.len() as int,
            end_index: 1,
        },
    ]);
}

/// Some character of `u` is written as an escape sequence.
pub open spec fn any_escaped(u: Seq<char>) -> bool
    decreases u.len(),
{
    if u.len() == 0 {
        false
    } else {
        escape_char(u[0]) != seq![u[0]] || any_escaped(u.drop_first())
    }
}

/// Every byte of a character that is written as it is may stand in a string.
proof fn lemma_encode_plain(c: char)
    requires
        escape_char(c) == seq![c],
    ensures
        forall|k: int|
            0 <= k < encode_utf8(seq![c]).len() ==> is_plain_string_byte(
                #[trigger] encode_utf8(seq![c])[k],
            ),
{
    let v = c as u32;
    assert(encode_utf8(seq![c]) =~= encode_scalar(v) + encode_utf8(seq![c].drop_first()));
    assert(seq![c].drop_first() =~= Seq::<char>::empty());
    assert(encode_utf8(seq![c]) =~= encode_scalar(v));
    if has_width_1_encoding(v) {
        lemma_low_byte(v);
    } else {
        lemma_high_bits(((v >> 6) & 0x1F) as u8);
        lemma_high_bits(((v >> 12) & 0x0F) as u8);
        lemma_high_bits(((v >> 18) & 0x7) as u8);
        lemma_high_bits((v & 0x3F) as u8);
        lemma_high_bits(((v >> 6) & 0x3F) as u8);
        lemma_high_bits(((v >> 12) & 0x3F) as u8);
    }
}

/// A string scans past the bytes written for `c`, noting whether they were an escape.
proof fn lemma_scan_char(t: Seq<u8>, st: PState, q: int, esc: bool, c: char)
    requires
        0 <= q,
        q + encode_utf8(escape_char(c)).len() < t.len(),
        forall|k: int|
            0 <= k < encode_utf8(escape_char(c)).len() ==> t[q + k] == #[trigger] encode_utf8(
                escape_char(c),
            )[k],
    ensures
        scan_string(t, st, q, esc) == scan_string(
            t,
            st,
            q + encode_utf8(escape_char(c)).len(),
            esc || escape_char(c) != seq![c],
        ),
{
    let e = encode_utf8(escape_char(c));
    if escape_char(c) == seq![c] {
        lemma_encode_plain(c);
        assert forall|j: int| q <= j < q + e.len() implies is_plain_string_byte(#[trigger] t[j]) by {
            assert(t[q + (j - q)] == e[j - q]);
        }
        lemma_scan_skip(t, st, q, e.len() as int, esc);
    } else {
        let x = c as int;
        let s = escape_char(c);
        if x < 0x20 || x == 0x7f {
            if c != '\n' && c != '\r' && c != '\t' && x != 0x08 && x != 0x0c {
                lemma_hex_char(x / 16);
                lemma_hex_char(x % 16);
            }
        }
        assert(forall|k: int| 0 <= k < s.len() ==> (#[trigger] s[k] as u32) < 0x80);
        lemma_encode_ascii(s);
        assert(t[q] == e[0]);
        assert(t[q + 1] == e[1]);
        if s.len() == 6 {
            assert(t[q + 2] == e[2]);
            assert(t[q + 3] == e[3]);
            assert(t[q + 4] == e[4]);
            assert(t[q + 5] == e[5]);
            assert(hex4(t, q + 2) == Some(x));
        }
    }
}

/// A string scans past the bytes written for `u`.
proof fn lemma_scan_escaped(t: Seq<u8>, st: PState, q: int, esc: bool, u: Seq<char>)
    requires
        0 <= q,
        q + encode_utf8(escape(u)).len() < t.len(),
        forall|k: int|
            0 <= k < encode_utf8(escape(u)).len() ==> t[q + k] == #[trigger] encode_utf8(
                escape(u),
            )[k],
    ensures
        scan_string(t, st, q, esc) == scan_string(
            t,
            st,
            q + encode_utf8(escape(u)).len(),
            esc || any_escaped(u),
        ),
    decreases u.len(),
{
    if u.len() == 0 {
        assert(escape(u) =~= Seq::<char>::empty());
    } else {
        let c = u[0];
        let w = u.drop_first();
        assert(u =~= seq![c] + w);
        lemma_escape_first(c, w);
        let e = encode_utf8(escape_char(c));
        let bw = encode_utf8(escape(w));
        assert forall|k: int| 0 <= k < e.len() implies t[q + k] == #[trigger] e[k] by {
            assert(encode_utf8(escape(u))[k] == e[k]);
        }
        lemma_scan_char(t, st, q, esc, c);
        assert forall|k: int| 0 <= k < bw.len() implies t[q + e.len() + k] == #[trigger] bw[k] by {
            assert(encode_utf8(escape(u))[e.len() + k] == bw[k]);
        }
        lemma_scan_escaped(t, st, q + e.len(), esc || escape_char(c) != seq![c], w);
    }
}

/// The string literal written for `s` parses as exactly one string value spanning
/// the whole text, with no comments, and its contents read back as `s`.
pub proof fn lemma_string_text_parses(s: Seq<char>, c: bool)
    ensures
        ({
            let t = encode_utf8(quoted(s));
            let e = Entry {
                kind: JsonValueKind::String,
                escaped: any_escaped(s),
                start: 0,
                end: t.len() as int,
                end_index: 1,
            };
            &&& parse_text(t, c) == Ok::<(Seq<Entry>, Seq<(int, int)>), PErr>(
                (seq![e], Seq::<(int, int)>::empty()),
            )
            &&& unescape(contents(t, e)) == s
        }),
{
    let t = encode_utf8(quoted(s));
    let b = encode_utf8(escape(s));
    let q = encode_utf8(seq!['"']);
    assert(q =~= seq![0x22u8]) by {
        lemma_encode_ascii(seq!['"']);
    }
    lemma_encode_concat(seq!['"'], escape(s));
    lemma_encode_concat(seq!['"'] + escape(s), seq!['"']);
    assert(t =~= seq![0x22u8] + b + seq![0x22u8]);
    let n = t.len() as int;
    assert(skip_ws(t, 0) == 0);
    assert(skip_ws(t, n) == n);
    let st = PState {
        pos: 0,
        kind: Some(JsonValueKind::String),
        values: seq![],
        comments: seq![],
        depth: 0,
    };
    assert forall|k: int| 0 <= k < b.len() implies t[1 + k] == #[trigger] b[k] by {
        assert(t[1 + k] == b[k]);
    }
    lemma_scan_escaped(t, st, 1, false, s);
    assert(t[n - 1] == 0x22);
    let e = Entry {
        kind: JsonValueKind::String,
        escaped: any_escaped(s),
        start: 0,
        end: n,
        end_index: 1,
    };
    assert(Seq::<Entry>::empty().push(
        Entry {
            kind: JsonValueKind::String,
            escaped: false,
            start: 0,
            end: n,
            end_index: 1,
        },
    ).update(0, e) =~= seq![e]);
    assert(contents(t, e) =~= b);
    lemma_string_roundtrip(s);
}

/// The text written for a boolean (`true` or `false`) parses as exactly one boolean
/// value spanning the whole text, with no comments; its bytes are those that the
/// conversion to `bool` reads as that boolean.
#[verifier::spinoff_prover]
#[verifier::rlimit(40)]
pub proof fn lemma_bool_text_parses(b: bool, c: bool)
    ensures
        ({
            let chars = if b {
                seq!['t', 'r', 'u', 'e']
            } else {
                seq!['f', 'a', 'l', 's', 'e']
            };
            let t = encode_utf8(chars);
            &&& t == (if b {
                true_bytes()
            } else {
                false_bytes()
            })
            &&& parse_text(t, c) == Ok::<(Seq<Entry>, Seq<(int, int)>), PErr>(
                (
                    seq![
                        Entry {
                            kind: JsonValueKind::Boolean,
                            escaped: false,
                            start: 0,
                            end: t.len() as int,
                            end_index: 1,
                        },
                    ],
                    Seq::<(int, int)>::empty(),
                ),
            )
        }),
{
    let chars = if b {
        seq!['t', 'r', 'u', 'e']
    } else {
        seq!['f', 'a', 'l', 's', 'e']
    };
    lemma_encode_ascii(chars);
    let t = encode_utf8(chars);
    if b {
        assert(t =~= true_bytes());
        assert(t.subrange(1, 4) =~= seq![0x72u8, 0x75u8, 0x65u8]);
    } else {
        assert(t =~= false_bytes());
        assert(t.subrange(1, 5) =~= seq![0x61u8, 0x6cu8, 0x73u8, 0x65u8]);
    }
    assert(skip_ws(t, 0) == 0);
    assert(skip_ws(t, t.len() as int) == t.len());
    assert(Seq::<Entry>::empty().push(
        Entry {
            kind: JsonValueKind::Boolean,
            escaped: false,
            start: 0,
            end: t.len() as int,
            end_index: 1,
        },
    ) =~= seq![
        Entry {
            kind: JsonValueKind::Boolean,
            escaped: false,
            start: 0,
            end: t.len() as int,
            end_index: 1,
        },
    ]);
}

} // verus!
