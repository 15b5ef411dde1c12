//! Where the error of a rejected text points: at the end of the text for an early end,
//! else at a byte inside the text that starts a character.
use vstd::prelude::*;
use vstd::utf8::{is_char_boundary, valid_utf8};
use crate::error::{JsonParseError, error_matches};
use crate::grammar::{
    PErr, PState, array_items, block_comment_end, count_digits, initial_state,
    is_digit, is_hex_digit, is_plain_string_byte, is_ws, lemma_block_comment_end,
    lemma_line_comment_end, lemma_skip_ws, line_comment_end, literal_mismatch, object_members,
    parse_array, parse_literal, parse_number, parse_object, parse_string, parse_text,
    parse_value, scan_string, skip_wc, skip_ws, hex4, digits,
};
use crate::kind::JsonValueKind;
use crate::slices::{ascii_edge, lemma_ascii_edge_boundary};

verus! {

/// The error `e` of text `t` points where it should: an early end at the end of the
/// text, any other error at a byte of the text next to an ASCII byte.
pub open spec fn err_at(t: Seq<u8>, e: PErr) -> bool {
    match e {
        PErr::Eos { position, .. } => position == t.len(),
        PErr::ValueChar { position, .. } => 0 <= position < t.len() && ascii_edge(t, position),
        PErr::Trailing { position, .. } => 0 <= position < t.len() && ascii_edge(t, position),
        PErr::TooDeep { position, .. } => 0 <= position < t.len() && ascii_edge(t, position),
        PErr::Stuck => true,
    }
}

/// A parsing step ends inside the text next to an ASCII byte, or fails as [`err_at`]
/// says.
spec fn step_ok(t: Seq<u8>, r: Result<PState, PErr>) -> bool {
    match r {
        Ok(s) => 0 <= s.pos <= t.len() && ascii_edge(t, s.pos),
        Err(e) => err_at(t, e),
    }
}

proof fn lemma_skip(t: Seq<u8>, c: bool, p: int, cm: Seq<(int, int)>, kind: Option<JsonValueKind>)
    requires
        0 <= p <= t.len(),
        ascii_edge(t, p),
    ensures
        match skip_wc(t, c, p, cm, kind) {
            Ok((q, _)) => p <= q <= t.len() && ascii_edge(t, q),
            Err(e) => err_at(t, e),
        },
    decreases t.len() - p,
{
    let q = skip_ws(t, p);
    lemma_skip_ws(t, p);
    if q > p {
        assert(is_ws(t[q - 1]));
    }
    if c {
        if q + 1 < t.len() && t[q] == 0x2f && t[q + 1] == 0x2f {
            let e = line_comment_end(t, q + 2);
            lemma_line_comment_end(t, q + 2);
            lemma_skip(t, c, e, cm.push((q, e)), kind);
        } else if q + 1 < t.len() && t[q] == 0x2f && t[q + 1] == 0x2a {
            lemma_block_comment_end(t, q + 2);
            match block_comment_end(t, q + 2) {
                Some(e) => lemma_skip(t, c, e, cm.push((q, e)), kind),
                None => {},
            }
        }
    }
}

proof fn lemma_mismatch(t: Seq<u8>, p: int, lit: Seq<u8>, i: int)
    requires
        0 <= i,
    ensures
        literal_mismatch(t, p, lit, i) matches Some(j) ==> i <= j < lit.len() && p + j < t.len()
            && t[p + j] != lit[j] && forall|k: int| i <= k < j ==> t[p + k] == lit[k],
    decreases lit.len() - i,
{
    if i < lit.len() && p + i < t.len() && t[p + i] == lit[i] {
        lemma_mismatch(t, p, lit, i + 1);
    }
}

proof fn lemma_literal(t: Seq<u8>, st: PState, kind: JsonValueKind, suffix: Seq<u8>)
    requires
        0 <= st.pos < t.len(),
        t[st.pos] < 0x80,
        forall|k: int| 0 <= k < suffix.len() ==> #[trigger] suffix[k] < 0x80,
    ensures
        step_ok(t, parse_literal(t, st, kind, suffix)),
{
    let p = st.pos + 1;
    if p + suffix.len() <= t.len() && t.subrange(p, p + suffix.len()) == suffix {
        if suffix.len() > 0 {
            let n = suffix.len() - 1;
            assert(t[p + n] == t.subrange(p, p + suffix.len())[n]);
        }
    } else {
        lemma_mismatch(t, p, suffix, 0);
        match literal_mismatch(t, p, suffix, 0) {
            Some(j) => {
                if j > 0 {
                    assert(t[p + (j - 1)] == suffix[j - 1]);
                }
            },
            None => {},
        }
    }
}

proof fn lemma_count(t: Seq<u8>, q: int)
    requires
        0 <= q,
    ensures
        q + count_digits(t, q) <= t.len() || count_digits(t, q) == 0,
        forall|j: int| q <= j < q + count_digits(t, q) ==> is_digit(#[trigger] t[j]),
    decreases t.len() - q,
{
    if 0 <= q < t.len() && is_digit(t[q]) {
        lemma_count(t, q + 1);
    }
}

proof fn lemma_digits(t: Seq<u8>, kind: Option<JsonValueKind>, q: int)
    requires
        0 <= q <= t.len(),
        ascii_edge(t, q),
    ensures
        match digits(t, kind, q) {
            Ok(e) => q < e <= t.len() && is_digit(t[e - 1]),
            Err(e) => err_at(t, e),
        },
{
    lemma_count(t, q);
    let n = count_digits(t, q);
    if n > 0 {
        assert(is_digit(t[q + n - 1]));
    }
}

proof fn lemma_number(t: Seq<u8>, st: PState)
    requires
        0 <= st.pos < t.len(),
        is_digit(t[st.pos]) || t[st.pos] == 0x2d,
    ensures
        step_ok(t, parse_number(t, st)),
{
    let p0 = st.pos;
    let q0 = if t[p0] == 0x2d {
        p0 + 1
    } else {
        p0
    };
    if !(q0 < t.len() && t[q0] == 0x30) {
        lemma_digits(t, Some(JsonValueKind::Integer), q0);
    }
    let int_end = if q0 < t.len() && t[q0] == 0x30 {
        Ok(q0 + 1)
    } else {
        digits(t, Some(JsonValueKind::Integer), q0)
    };
    match int_end {
        Err(_) => {},
        Ok(q1) => {
            let frac = q1 < t.len() && t[q1] == 0x2e;
            if frac {
                lemma_digits(t, Some(JsonValueKind::Float), q1 + 1);
            }
            let frac_end = if frac {
                digits(t, Some(JsonValueKind::Float), q1 + 1)
            } else {
                Ok(q1)
            };
            match frac_end {
                Err(_) => {},
                Ok(q2) => {
                    let exp = q2 < t.len() && (t[q2] == 0x65 || t[q2] == 0x45);
                    let kind = if frac || exp {
                        JsonValueKind::Float
                    } else {
                        JsonValueKind::Integer
                    };
                    if exp {
                        let q3 = if q2 + 1 < t.len() && (t[q2 + 1] == 0x2d || t[q2 + 1] == 0x2b) {
                            q2 + 2
                        } else {
                            q2 + 1
                        };
                        lemma_digits(t, Some(kind), q3);
                    }
                },
            }
        },
    }
}

proof fn lemma_scan(t: Seq<u8>, st: PState, q: int, escaped: bool)
    requires
        0 <= q,
    ensures
        step_ok(t, scan_string(t, st, q, escaped)),
    decreases t.len() - q,
{
    if q < t.len() {
        let b = t[q];
        if b == 0x22 {
        } else if is_plain_string_byte(b) {
            lemma_scan(t, st, q + 1, escaped);
        } else if b == 0x5c {
            let r = q + 1;
            if r < t.len() && (t[r] == 0x22 || t[r] == 0x5c || t[r] == 0x2f || t[r] == 0x6e || t[r]
                == 0x74 || t[r] == 0x72 || t[r] == 0x62 || t[r] == 0x66) {
                lemma_scan(t, st, r + 1, true);
            } else if r < t.len() && t[r] == 0x75 {
                let h = r + 1;
                if h + 4 <= t.len() {
                    match hex4(t, h) {
                        None => {},
                        Some(code) => {
                            assert(is_hex_digit(t[h + 3]));
                            let p = h + 4;
                            if p + 6 <= t.len() && t[p] == 0x5c && t[p + 1] == 0x75 {
                                lemma_scan(t, st, p + 6, true);
                            }
                            lemma_scan(t, st, h + 4, true);
                        },
                    }
                }
            }
        }
    }
}

proof fn lemma_value(t: Seq<u8>, c: bool, st: PState)
    requires
        0 <= st.pos <= t.len(),
        ascii_edge(t, st.pos),
    ensures
        step_ok(t, parse_value(t, c, st)),
    decreases t.len() - st.pos, 2int,
{
    lemma_skip(t, c, st.pos, st.comments, st.kind);
    match skip_wc(t, c, st.pos, st.comments, st.kind) {
        Err(_) => {},
        Ok((p, cm)) => {
            let s1 = PState { pos: p, comments: cm, ..st };
            if p < t.len() {
                let b = t[p];
                if b == 0x6e {
                    lemma_literal(t, s1, JsonValueKind::Null, seq![0x75u8, 0x6cu8, 0x6cu8]);
                } else if b == 0x74 {
                    lemma_literal(t, s1, JsonValueKind::Boolean, seq![0x72u8, 0x75u8, 0x65u8]);
                } else if b == 0x66 {
                    lemma_literal(t, s1, JsonValueKind::Boolean, seq![0x61u8, 0x6cu8, 0x73u8, 0x65u8]);
                } else if b == 0x22 {
                    lemma_scan(t, crate::grammar::with_kind(s1, JsonValueKind::String), p + 1, false);
                } else if b == 0x5b {
                    lemma_array(t, c, s1);
                } else if b == 0x7b {
                    lemma_object(t, c, s1);
                } else if is_digit(b) || b == 0x2d {
                    lemma_number(t, s1);
                }
            }
        },
    }
}

proof fn lemma_array(t: Seq<u8>, c: bool, st: PState)
    requires
        0 <= st.pos < t.len(),
        t[st.pos] == 0x5b,
    ensures
        step_ok(t, parse_array(t, c, st)),
    decreases t.len() - st.pos, 1int,
{
    let st2 = PState { kind: Some(JsonValueKind::Array), depth: st.depth + 1, ..st };
    lemma_skip(t, c, st.pos + 1, st2.comments, st2.kind);
    match skip_wc(t, c, st.pos + 1, st2.comments, st2.kind) {
        Err(_) => {},
        Ok((s, cm)) => {
            let st3 = PState { comments: cm, ..st2 };
            if st.pos < s <= t.len() && !(s < t.len() && t[s] == 0x5d) {
                let index = st3.values.len() as int;
                lemma_items(t, c, crate::grammar::push_entry(st3, s - st3.pos), index);
            }
        },
    }
}

proof fn lemma_items(t: Seq<u8>, c: bool, st: PState, index: int)
    requires
        0 <= st.pos <= t.len(),
        ascii_edge(t, st.pos),
    ensures
        step_ok(t, array_items(t, c, st, index)),
    decreases t.len() - st.pos, 3int,
{
    lemma_value(t, c, st);
    match parse_value(t, c, st) {
        Err(_) => {},
        Ok(s2) => {
            if st.pos < s2.pos <= t.len() {
                let s2 = crate::grammar::with_kind(s2, JsonValueKind::Array);
                lemma_skip(t, c, s2.pos, s2.comments, s2.kind);
                match skip_wc(t, c, s2.pos, s2.comments, s2.kind) {
                    Err(_) => {},
                    Ok((p, cm)) => {
                        let s3 = PState { pos: p, comments: cm, ..s2 };
                        if p >= s2.pos && !(p < t.len() && t[p] == 0x5d) && p < t.len() && t[p]
                            == 0x2c {
                            if c {
                                lemma_skip(t, c, p + 1, s3.comments, s3.kind);
                                match skip_wc(t, c, p + 1, s3.comments, s3.kind) {
                                    Err(_) => {},
                                    Ok((p2, cm2)) => {
                                        let s5 = PState { pos: p2, comments: cm2, ..s3 };
                                        if p < p2 <= t.len() && !(p2 < t.len() && t[p2] == 0x5d) {
                                            lemma_items(t, c, s5, index);
                                        }
                                    },
                                }
                            } else {
                                lemma_items(t, c, crate::grammar::at(s3, p + 1), index);
                            }
                        }
                    },
                }
            }
        },
    }
}

proof fn lemma_object(t: Seq<u8>, c: bool, st: PState)
    requires
        0 <= st.pos < t.len(),
        t[st.pos] == 0x7b,
    ensures
        step_ok(t, parse_object(t, c, st)),
    decreases t.len() - st.pos, 1int,
{
    let st2 = PState { kind: Some(JsonValueKind::Object), depth: st.depth + 1, ..st };
    lemma_skip(t, c, st.pos + 1, st2.comments, st2.kind);
    match skip_wc(t, c, st.pos + 1, st2.comments, st2.kind) {
        Err(_) => {},
        Ok((s, cm)) => {
            let st3 = PState { comments: cm, ..st2 };
            if st.pos < s <= t.len() && !(s < t.len() && t[s] == 0x7d) {
                let index = st3.values.len() as int;
                lemma_members(t, c, crate::grammar::push_entry(st3, s - st3.pos), index);
            }
        },
    }
}

proof fn lemma_members(t: Seq<u8>, c: bool, st: PState, index: int)
    requires
        0 <= st.pos <= t.len(),
        ascii_edge(t, st.pos),
    ensures
        step_ok(t, object_members(t, c, st, index)),
    decreases t.len() - st.pos, 3int,
{
    if st.pos < t.len() && t[st.pos] == 0x22 {
        let sk = crate::grammar::with_kind(st, JsonValueKind::String);
        lemma_scan(t, sk, st.pos + 1, false);
        match parse_string(t, st) {
            Err(_) => {},
            Ok(s1) => {
                let s1 = crate::grammar::with_kind(s1, JsonValueKind::Object);
                lemma_skip(t, c, s1.pos, s1.comments, s1.kind);
                match skip_wc(t, c, s1.pos, s1.comments, s1.kind) {
                    Err(_) => {},
                    Ok((p, cm)) => {
                        let s2 = PState { pos: p, comments: cm, ..s1 };
                        if p > st.pos && p < t.len() && t[p] == 0x3a {
                            lemma_value(t, c, crate::grammar::at(s2, p + 1));
                            match parse_value(t, c, crate::grammar::at(s2, p + 1)) {
                                Err(_) => {},
                                Ok(s4) => {
                                    if p + 1 < s4.pos <= t.len() {
                                        let s4 = crate::grammar::with_kind(s4, JsonValueKind::Object);
                                        lemma_skip(t, c, s4.pos, s4.comments, s4.kind);
                                        match skip_wc(t, c, s4.pos, s4.comments, s4.kind) {
                                            Err(_) => {},
                                            Ok((q, cm4)) => {
                                                let s5 = PState { pos: q, comments: cm4, ..s4 };
                                                if q >= s4.pos && !(q < t.len() && t[q] == 0x7d)
                                                    && q < t.len() && t[q] == 0x2c {
                                                    lemma_skip(t, c, q + 1, s5.comments, s5.kind);
                                                    match skip_wc(t, c, q + 1, s5.comments, s5.kind) {
                                                        Err(_) => {},
                                                        Ok((r, cm6)) => {
                                                            let s7 = PState {
                                                                pos: r,
                                                                comments: cm6,
                                                                ..s5
                                                            };
                                                            if q < r <= t.len() && !(c && r
                                                                < t.len() && t[r] == 0x7d) {
                                                                lemma_members(t, c, s7, index);
                                                            }
                                                        },
                                                    }
                                                }
                                            },
                                        }
                                    }
                                },
                            }
                        }
                    },
                }
            },
        }
    }
}

/// The errors of a rejected text point where they should: an early end at the end of
/// the text, any other error at a byte inside the text next to an ASCII byte.
pub proof fn lemma_parse_error_position(t: Seq<u8>, c: bool)
    ensures
        parse_text(t, c) matches Err(e) ==> err_at(t, e),
{
    let st = initial_state();
    lemma_value(t, c, st);
    match parse_value(t, c, st) {
        Err(_) => {},
        Ok(s1) => {
            lemma_skip(t, c, s1.pos, s1.comments, s1.kind);
        },
    }
}

/// Where a parse error points: an unexpected end at the end of the text; any other
/// error at a byte inside the text that starts a character, so that the text has a
/// line and a column there.
pub proof fn lemma_error_position(t: Seq<u8>, c: bool, e: JsonParseError)
    requires
        valid_utf8(t),
        parse_text(t, c) matches Err(pe) && error_matches(e, pe),
    ensures
        e is UnexpectedEos ==> e.spec_position() == t.len(),
        !(e is UnexpectedEos) ==> e.spec_position() < t.len() && is_char_boundary(
            t,
            e.spec_position() as int,
        ),
{
    lemma_parse_error_position(t, c);
    let pe = parse_text(t, c)->Err_0;
    match pe {
        PErr::Eos { .. } => {},
        PErr::Stuck => {},
        PErr::ValueChar { position, .. } => lemma_ascii_edge_boundary(t, position),
        PErr::Trailing { position, .. } => lemma_ascii_edge_boundary(t, position),
        PErr::TooDeep { position, .. } => lemma_ascii_edge_boundary(t, position),
    }
}

} // verus!
