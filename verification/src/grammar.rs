//! The JSON and JSONC grammar, stated over the bytes of the input text, together with
//! the exact error that the parser reports for each rejected input.
use vstd::prelude::*;
use crate::kind::JsonValueKind;

verus! {

/// Maximum nesting depth of arrays and objects accepted by the parser.
pub const MAX_NESTING_DEPTH: usize = 128;

/// One parsed value: its kind, whether a string holds escapes, its byte range, and
/// the index one past its last descendant.
pub struct Entry {
    pub kind: JsonValueKind,
    pub escaped: bool,
    pub start: int,
    pub end: int,
    pub end_index: int,
}

/// The parser's state between two steps.
pub struct PState {
    pub pos: int,
    pub kind: Option<JsonValueKind>,
    pub values: Seq<Entry>,
    pub comments: Seq<(int, int)>,
    pub depth: int,
}

/// The error of a rejected input.
#[allow(inconsistent_fields)]
pub enum PErr {
    Eos { kind: Option<JsonValueKind>, position: int },
    ValueChar { kind: Option<JsonValueKind>, position: int },
    Trailing { kind: JsonValueKind, position: int },
    TooDeep { kind: JsonValueKind, position: int },
    /// A step that consumed nothing; the parser never reports it.
    Stuck,
}

pub open spec fn is_ws(b: u8) -> bool {
    b == 0x20 || b == 0x09 || b == 0x0d || b == 0x0a
}

pub open spec fn is_digit(b: u8) -> bool {
    0x30 <= b <= 0x39
}

pub open spec fn is_hex_digit(b: u8) -> bool {
    is_digit(b) || (0x61 <= b <= 0x66) || (0x41 <= b <= 0x46)
}

pub open spec fn hex_value(b: u8) -> int {
    if is_digit(b) {
        b - 0x30
    } else if 0x61 <= b <= 0x66 {
        b - 0x61 + 10
    } else {
        b - 0x41 + 10
    }
}

/// The value of the four hex digits at `p`, if they are hex digits.
pub open spec fn hex4(t: Seq<u8>, p: int) -> Option<int> {
    if 0 <= p && p + 4 <= t.len() && is_hex_digit(t[p]) && is_hex_digit(t[p + 1])
        && is_hex_digit(t[p + 2]) && is_hex_digit(t[p + 3]) {
        Some(
            hex_value(t[p]) * 4096 + hex_value(t[p + 1]) * 256 + hex_value(t[p + 2]) * 16
                + hex_value(t[p + 3]),
        )
    } else {
        None
    }
}

pub open spec fn is_high_surrogate(code: int) -> bool {
    0xd800 <= code <= 0xdbff
}

pub open spec fn is_low_surrogate(code: int) -> bool {
    0xdc00 <= code <= 0xdfff
}

/// A byte that may stand unescaped in a string and needs no further check.
pub open spec fn is_plain_string_byte(b: u8) -> bool {
    b >= 0x80 || (b >= 0x20 && b != 0x22 && b != 0x5c)
}

/// The first position at or after `p` that is not whitespace.
pub open spec fn skip_ws(t: Seq<u8>, p: int) -> int
    decreases t.len() - p,
{
    if 0 <= p < t.len() && is_ws(t[p]) {
        skip_ws(t, p + 1)
    } else {
        p
    }
}

/// The end of a line comment whose body starts at `p`: the next line feed, or the end.
pub open spec fn line_comment_end(t: Seq<u8>, p: int) -> int
    decreases t.len() - p,
{
    if 0 <= p < t.len() && t[p] != 0x0a {
        line_comment_end(t, p + 1)
    } else {
        p
    }
}

/// The end of a block comment whose body starts at `p`: just past the next `*/`.
pub open spec fn block_comment_end(t: Seq<u8>, p: int) -> Option<int>
    decreases t.len() - p,
{
    if p < 0 || p + 1 >= t.len() {
        None
    } else if t[p] == 0x2a && t[p + 1] == 0x2f {
        Some(p + 2)
    } else {
        block_comment_end(t, p + 1)
    }
}

pub proof fn lemma_skip_ws(t: Seq<u8>, p: int)
    requires
        0 <= p <= t.len(),
    ensures
        p <= skip_ws(t, p) <= t.len(),
        skip_ws(t, p) < t.len() ==> !is_ws(t[skip_ws(t, p)]),
        forall|i: int| p <= i < skip_ws(t, p) ==> is_ws(#[trigger] t[i]),
    decreases t.len() - p,
{
    if p < t.len() && is_ws(t[p]) {
        lemma_skip_ws(t, p + 1);
    }
}

pub proof fn lemma_line_comment_end(t: Seq<u8>, p: int)
    requires
        0 <= p <= t.len(),
    ensures
        p <= line_comment_end(t, p) <= t.len(),
        line_comment_end(t, p) < t.len() ==> t[line_comment_end(t, p)] == 0x0a,
        forall|i: int| p <= i < line_comment_end(t, p) ==> #[trigger] t[i] != 0x0a,
    decreases t.len() - p,
{
    if p < t.len() && t[p] != 0x0a {
        lemma_line_comment_end(t, p + 1);
    }
}

pub proof fn lemma_block_comment_end(t: Seq<u8>, p: int)
    requires
        0 <= p <= t.len(),
    ensures
        block_comment_end(t, p) matches Some(q) ==> p + 2 <= q <= t.len() && t[q - 2] == 0x2a
            && t[q - 1] == 0x2f,
    decreases t.len() - p,
{
    if p + 1 < t.len() && !(t[p] == 0x2a && t[p + 1] == 0x2f) {
        lemma_block_comment_end(t, p + 1);
    }
}

/// Skips whitespace and, in JSONC mode, comments, starting at `p`; returns the new
/// position and the comment list extended by the comments skipped.
pub open spec fn skip_wc(
    t: Seq<u8>,
    c: bool,
    p: int,
    comments: Seq<(int, int)>,
    kind: Option<JsonValueKind>,
) -> Result<(int, Seq<(int, int)>), PErr>
    decreases t.len() - p,
{
    if p < 0 || p > t.len() {
        Err(PErr::Stuck)
    } else {
        let q = skip_ws(t, p);
        proof {
            lemma_skip_ws(t, p);
        }
        if !c {
            Ok((q, comments))
        } else if q + 1 < t.len() && t[q] == 0x2f && t[q + 1] == 0x2f {
            let e = line_comment_end(t, q + 2);
            proof {
                lemma_line_comment_end(t, q + 2);
            }
            skip_wc(t, c, e, comments.push((q, e)), kind)
        } else if q + 1 < t.len() && t[q] == 0x2f && t[q + 1] == 0x2a {
            match block_comment_end(t, q + 2) {
                None => Err(PErr::Eos { kind, position: t.len() as int }),
                Some(e) => {
                    proof {
                        lemma_block_comment_end(t, q + 2);
                    }
                    skip_wc(t, c, e, comments.push((q, e)), kind)
                },
            }
        } else {
            Ok((q, comments))
        }
    }
}

/// The error for an unexpected byte at `position`, or for the end of the text when
/// `position` is its length.
pub open spec fn value_char_error(t: Seq<u8>, kind: Option<JsonValueKind>, position: int) -> PErr {
    if position == t.len() {
        PErr::Eos { kind, position }
    } else {
        PErr::ValueChar { kind, position }
    }
}

pub open spec fn eos_error(t: Seq<u8>, kind: Option<JsonValueKind>) -> PErr {
    PErr::Eos { kind, position: t.len() as int }
}

/// Records a value of `len` bytes starting at the current position, of the current kind.
pub open spec fn push_entry(st: PState, len: int) -> PState {
    PState {
        pos: st.pos + len,
        values: st.values.push(
            Entry {
                kind: st.kind.unwrap(),
                escaped: false,
                start: st.pos,
                end: st.pos + len,
                end_index: st.values.len() + 1 as int,
            },
        ),
        ..st
    }
}

/// Closes the container recorded at `index`: it ends at the current position.
pub open spec fn finish_entry(st: PState, index: int) -> PState {
    PState {
        values: st.values.update(
            index,
            Entry { end: st.pos, end_index: st.values.len() as int, ..st.values[index] },
        ),
        depth: st.depth - 1,
        ..st
    }
}

pub open spec fn with_kind(st: PState, kind: JsonValueKind) -> PState {
    PState { kind: Some(kind), ..st }
}

pub open spec fn at(st: PState, p: int) -> PState {
    PState { pos: p, ..st }
}

/// The index of the first byte at `p + i` or later that differs from `lit[i]`, if the
/// text has one before either ends.
pub open spec fn literal_mismatch(t: Seq<u8>, p: int, lit: Seq<u8>, i: int) -> Option<int>
    decreases lit.len() - i,
{
    if i < 0 || i >= lit.len() || p + i >= t.len() {
        None
    } else if t[p + i] != lit[i] {
        Some(i)
    } else {
        literal_mismatch(t, p, lit, i + 1)
    }
}

/// `null`, `true` or `false`: the first byte is already known; `suffix` is the rest.
pub open spec fn parse_literal(t: Seq<u8>, st: PState, kind: JsonValueKind, suffix: Seq<u8>) -> Result<
    PState,
    PErr,
> {
    let st = with_kind(st, kind);
    let p = st.pos + 1;
    if p + suffix.len() <= t.len() && t.subrange(p, p + suffix.len()) == suffix {
        Ok(push_entry(st, 1 + suffix.len() as int))
    } else {
        match literal_mismatch(t, p, suffix, 0) {
            Some(i) => Err(value_char_error(t, st.kind, p + i)),
            None => Err(eos_error(t, st.kind)),
        }
    }
}

/// The number of ASCII digits at `p`.
pub open spec fn count_digits(t: Seq<u8>, p: int) -> nat
    decreases t.len() - p,
{
    if 0 <= p < t.len() && is_digit(t[p]) {
        1 + count_digits(t, p + 1)
    } else {
        0
    }
}

/// One or more digits at `q`; the position after them.
pub open spec fn digits(t: Seq<u8>, kind: Option<JsonValueKind>, q: int) -> Result<int, PErr> {
    let n = count_digits(t, q);
    if n == 0 {
        Err(value_char_error(t, kind, q))
    } else {
        Ok(q + n)
    }
}

/// `number = [ minus ] int [ frac ] [ exp ]`
pub open spec fn parse_number(t: Seq<u8>, st: PState) -> Result<PState, PErr> {
    let p0 = st.pos;
    let q0 = if p0 < t.len() && t[p0] == 0x2d {
        p0 + 1
    } else {
        p0
    };
    let int_end = if q0 < t.len() && t[q0] == 0x30 {
        Ok(q0 + 1)
    } else {
        digits(t, Some(JsonValueKind::Integer), q0)
    };
    match int_end {
        Err(e) => Err(e),
        Ok(q1) => {
            let frac = q1 < t.len() && t[q1] == 0x2e;
            let frac_end = if frac {
                digits(t, Some(JsonValueKind::Float), q1 + 1)
            } else {
                Ok(q1)
            };
            match frac_end {
                Err(e) => Err(e),
                Ok(q2) => {
                    let exp = q2 < t.len() && (t[q2] == 0x65 || t[q2] == 0x45);
                    let kind = if frac || exp {
                        JsonValueKind::Float
                    } else {
                        JsonValueKind::Integer
                    };
                    let exp_end = if exp {
                        let q3 = if q2 + 1 < t.len() && (t[q2 + 1] == 0x2d || t[q2 + 1] == 0x2b) {
                            q2 + 2
                        } else {
                            q2 + 1
                        };
                        digits(t, Some(kind), q3)
                    } else {
                        Ok(q2)
                    };
                    match exp_end {
                        Err(e) => Err(e),
                        Ok(q4) => Ok(push_entry(with_kind(st, kind), q4 - p0)),
                    }
                },
            }
        },
    }
}

/// Marks the last recorded value as holding escapes (or not).
pub open spec fn set_last_escaped(st: PState, escaped: bool) -> PState {
    PState {
        values: st.values.update(
            st.values.len() - 1,
            Entry { escaped, ..st.values.last() },
        ),
        ..st
    }
}

/// The rest of a string whose opening quote is at `st.pos`, scanned from `q`.
pub open spec fn scan_string(t: Seq<u8>, st: PState, q: int, escaped: bool) -> Result<PState, PErr>
    decreases t.len() - q,
{
    if q < 0 || q >= t.len() {
        Err(eos_error(t, st.kind))
    } else {
        let b = t[q];
        if b == 0x22 {
            Ok(set_last_escaped(push_entry(st, q + 1 - st.pos), escaped))
        } else if is_plain_string_byte(b) {
            scan_string(t, st, q + 1, escaped)
        } else if b == 0x5c {
            let r = q + 1;
            if r < t.len() && (t[r] == 0x22 || t[r] == 0x5c || t[r] == 0x2f || t[r] == 0x6e || t[r]
                == 0x74 || t[r] == 0x72 || t[r] == 0x62 || t[r] == 0x66) {
                scan_string(t, st, r + 1, true)
            } else if !(r < t.len() && t[r] == 0x75) {
                Err(value_char_error(t, st.kind, r))
            } else {
                let h = r + 1;
                if h + 4 > t.len() {
                    Err(eos_error(t, st.kind))
                } else {
                    match hex4(t, h) {
                        None => Err(value_char_error(t, st.kind, h)),
                        Some(code) => {
                            if is_high_surrogate(code) {
                                let p = h + 4;
                                if !(p + 1 < t.len() && t[p] == 0x5c && t[p + 1] == 0x75) {
                                    Err(value_char_error(t, st.kind, p))
                                } else {
                                    let h2 = p + 2;
                                    if h2 + 4 > t.len() {
                                        Err(eos_error(t, st.kind))
                                    } else {
                                        match hex4(t, h2) {
                                            Some(low) => if is_low_surrogate(low) {
                                                scan_string(t, st, h2 + 4, true)
                                            } else {
                                                Err(value_char_error(t, st.kind, h2))
                                            },
                                            None => Err(value_char_error(t, st.kind, h2)),
                                        }
                                    }
                                }
                            } else if is_low_surrogate(code) {
                                Err(value_char_error(t, st.kind, h))
                            } else {
                                scan_string(t, st, h + 4, true)
                            }
                        },
                    }
                }
            }
        } else {
            Err(value_char_error(t, st.kind, q))
        }
    }
}

/// A string whose opening quote is at `st.pos`.
pub open spec fn parse_string(t: Seq<u8>, st: PState) -> Result<PState, PErr> {
    let st = with_kind(st, JsonValueKind::String);
    scan_string(t, st, st.pos + 1, false)
}

/// A value, after optional whitespace (and comments).
pub open spec fn parse_value(t: Seq<u8>, c: bool, st: PState) -> Result<PState, PErr>
    decreases t.len() - st.pos, 2int,
{
    if st.pos < 0 || st.pos > t.len() {
        Err(PErr::Stuck)
    } else {
        match skip_wc(t, c, st.pos, st.comments, st.kind) {
            Err(e) => Err(e),
            Ok((p, cm)) => {
                let s1 = PState { pos: p, comments: cm, ..st };
                if p < st.pos || p >= t.len() {
                    Err(eos_error(t, st.kind))
                } else {
                    let b = t[p];
                    if b == 0x6e {
                        parse_literal(t, s1, JsonValueKind::Null, seq![0x75u8, 0x6cu8, 0x6cu8])
                    } else if b == 0x74 {
                        parse_literal(t, s1, JsonValueKind::Boolean, seq![0x72u8, 0x75u8, 0x65u8])
                    } else if b == 0x66 {
                        parse_literal(
                            t,
                            s1,
                            JsonValueKind::Boolean,
                            seq![0x61u8, 0x6cu8, 0x73u8, 0x65u8],
                        )
                    } else if b == 0x22 {
                        parse_string(t, s1)
                    } else if b == 0x5b {
                        parse_array(t, c, s1)
                    } else if b == 0x7b {
                        parse_object(t, c, s1)
                    } else if is_digit(b) || b == 0x2d {
                        parse_number(t, s1)
                    } else {
                        Err(value_char_error(t, s1.kind, p))
                    }
                }
            },
        }
    }
}

/// An array whose `[` is at `st.pos`.
pub open spec fn parse_array(t: Seq<u8>, c: bool, st: PState) -> Result<PState, PErr>
    decreases t.len() - st.pos, 1int,
{
    if st.depth >= MAX_NESTING_DEPTH {
        Err(PErr::TooDeep { kind: JsonValueKind::Array, position: st.pos })
    } else if st.pos < 0 || st.pos >= t.len() {
        Err(PErr::Stuck)
    } else {
        let st = PState { kind: Some(JsonValueKind::Array), depth: st.depth + 1, ..st };
        match skip_wc(t, c, st.pos + 1, st.comments, st.kind) {
            Err(e) => Err(e),
            Ok((s, cm)) => {
                let st = PState { comments: cm, ..st };
                if s <= st.pos || s > t.len() {
                    Err(PErr::Stuck)
                } else if s < t.len() && t[s] == 0x5d {
                    Ok(PState { depth: st.depth - 1, ..push_entry(st, s + 1 - st.pos) })
                } else {
                    let index = st.values.len() as int;
                    array_items(t, c, push_entry(st, s - st.pos), index)
                }
            },
        }
    }
}

/// The elements of the array recorded at `index`, from the next element on.
pub open spec fn array_items(t: Seq<u8>, c: bool, st: PState, index: int) -> Result<PState, PErr>
    decreases t.len() - st.pos, 3int,
{
    if st.pos < 0 || st.pos > t.len() {
        Err(PErr::Stuck)
    } else {
        match parse_value(t, c, st) {
            Err(e) => Err(e),
            Ok(s2) => {
                if !(st.pos < s2.pos <= t.len()) {
                    Err(PErr::Stuck)
                } else {
                    let s2 = with_kind(s2, JsonValueKind::Array);
                    match skip_wc(t, c, s2.pos, s2.comments, s2.kind) {
                        Err(e) => Err(e),
                        Ok((p, cm)) => {
                            let s3 = PState { pos: p, comments: cm, ..s2 };
                            if p < s2.pos {
                                Err(PErr::Stuck)
                            } else if p < t.len() && t[p] == 0x5d {
                                Ok(finish_entry(at(s3, p + 1), index))
                            } else if !(p < t.len() && t[p] == 0x2c) {
                                Err(value_char_error(t, s3.kind, p))
                            } else if c {
                                match skip_wc(t, c, p + 1, s3.comments, s3.kind) {
                                    Err(e) => Err(e),
                                    Ok((p2, cm2)) => {
                                        let s5 = PState { pos: p2, comments: cm2, ..s3 };
                                        if p2 <= p || p2 > t.len() {
                                            Err(PErr::Stuck)
                                        } else if p2 < t.len() && t[p2] == 0x5d {
                                            Ok(finish_entry(at(s5, p2 + 1), index))
                                        } else {
                                            array_items(t, c, s5, index)
                                        }
                                    },
                                }
                            } else {
                                array_items(t, c, at(s3, p + 1), index)
                            }
                        },
                    }
                }
            },
        }
    }
}

/// An object whose `{` is at `st.pos`.
pub open spec fn parse_object(t: Seq<u8>, c: bool, st: PState) -> Result<PState, PErr>
    decreases t.len() - st.pos, 1int,
{
    if st.depth >= MAX_NESTING_DEPTH {
        Err(PErr::TooDeep { kind: JsonValueKind::Object, position: st.pos })
    } else if st.pos < 0 || st.pos >= t.len() {
        Err(PErr::Stuck)
    } else {
        let st = PState { kind: Some(JsonValueKind::Object), depth: st.depth + 1, ..st };
        match skip_wc(t, c, st.pos + 1, st.comments, st.kind) {
            Err(e) => Err(e),
            Ok((s, cm)) => {
                let st = PState { comments: cm, ..st };
                if s <= st.pos || s > t.len() {
                    Err(PErr::Stuck)
                } else if s < t.len() && t[s] == 0x7d {
                    Ok(PState { depth: st.depth - 1, ..push_entry(st, s + 1 - st.pos) })
                } else {
                    let index = st.values.len() as int;
                    object_members(t, c, push_entry(st, s - st.pos), index)
                }
            },
        }
    }
}

/// The members of the object recorded at `index`, from the next key on.
pub open spec fn object_members(t: Seq<u8>, c: bool, st: PState, index: int) -> Result<
    PState,
    PErr,
>
    decreases t.len() - st.pos, 3int,
{
    if st.pos < 0 || st.pos > t.len() {
        Err(PErr::Stuck)
    } else if !(st.pos < t.len() && t[st.pos] == 0x22) {
        Err(value_char_error(t, st.kind, st.pos))
    } else {
        match parse_string(t, st) {
            Err(e) => Err(e),
            Ok(s1) => {
                let s1 = with_kind(s1, JsonValueKind::Object);
                match skip_wc(t, c, s1.pos, s1.comments, s1.kind) {
                    Err(e) => Err(e),
                    Ok((p, cm)) => {
                        let s2 = PState { pos: p, comments: cm, ..s1 };
                        if p <= st.pos {
                            Err(PErr::Stuck)
                        } else if !(p < t.len() && t[p] == 0x3a) {
                            Err(value_char_error(t, s2.kind, p))
                        } else {
                            match parse_value(t, c, at(s2, p + 1)) {
                                Err(e) => Err(e),
                                Ok(s4) => {
                                    if !(p + 1 < s4.pos <= t.len()) {
                                        Err(PErr::Stuck)
                                    } else {
                                        let s4 = with_kind(s4, JsonValueKind::Object);
                                        match skip_wc(t, c, s4.pos, s4.comments, s4.kind) {
                                            Err(e) => Err(e),
                                            Ok((q, cm4)) => {
                                                let s5 = PState { pos: q, comments: cm4, ..s4 };
                                                if q < s4.pos {
                                                    Err(PErr::Stuck)
                                                } else if q < t.len() && t[q] == 0x7d {
                                                    Ok(finish_entry(at(s5, q + 1), index))
                                                } else if !(q < t.len() && t[q] == 0x2c) {
                                                    Err(value_char_error(t, s5.kind, q))
                                                } else {
                                                    match skip_wc(
                                                        t,
                                                        c,
                                                        q + 1,
                                                        s5.comments,
                                                        s5.kind,
                                                    ) {
                                                        Err(e) => Err(e),
                                                        Ok((r, cm6)) => {
                                                            let s7 = PState {
                                                                pos: r,
                                                                comments: cm6,
                                                                ..s5
                                                            };
                                                            if r <= q || r > t.len() {
                                                                Err(PErr::Stuck)
                                                            } else if c && r < t.len() && t[r]
                                                                == 0x7d {
                                                                Ok(finish_entry(at(s7, r + 1), index))
                                                            } else {
                                                                object_members(t, c, s7, index)
                                                            }
                                                        },
                                                    }
                                                }
                                            },
                                        }
                                    }
                                },
                            }
                        }
                    },
                }
            },
        }
    }
}

pub proof fn lemma_count_digits(t: Seq<u8>, q: int, n: int)
    requires
        0 <= q,
        0 <= n,
        q + n <= t.len(),
        forall|j: int| q <= j < q + n ==> is_digit(#[trigger] t[j]),
        q + n == t.len() || !is_digit(t[q + n]),
    ensures
        count_digits(t, q) == n,
    decreases n,
{
    if n > 0 {
        lemma_count_digits(t, q + 1, n - 1);
    }
}

/// Bytes that need no check do not change how the rest of a string scans.
pub proof fn lemma_scan_skip(t: Seq<u8>, st: PState, q: int, n: int, escaped: bool)
    requires
        0 <= q,
        0 <= n,
        q + n <= t.len(),
        forall|j: int| q <= j < q + n ==> is_plain_string_byte(#[trigger] t[j]),
    ensures
        scan_string(t, st, q, escaped) == scan_string(t, st, q + n, escaped),
    decreases n,
{
    if n > 0 {
        lemma_scan_skip(t, st, q + 1, n - 1, escaped);
    }
}

pub open spec fn initial_state() -> PState {
    PState { pos: 0, kind: None, values: seq![], comments: seq![], depth: 0 }
}

/// The whole text: one value, surrounded by whitespace (and comments).
/// On success, the recorded values and comments.
pub open spec fn parse_text(t: Seq<u8>, c: bool) -> Result<(Seq<Entry>, Seq<(int, int)>), PErr> {
    match parse_value(t, c, initial_state()) {
        Err(e) => Err(e),
        Ok(s1) => match skip_wc(t, c, s1.pos, s1.comments, s1.kind) {
            Err(e) => Err(e),
            Ok((p, cm)) => if p < t.len() {
                Err(PErr::Trailing { kind: s1.kind.unwrap(), position: p })
            } else {
                Ok((s1.values, cm))
            },
        },
    }
}

} // verus!
