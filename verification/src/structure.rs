//! The shape of the value index that a successful parse records: every entry lies in
//! the text, begins and ends on an ASCII byte, and the entries after it up to its
//! `end_index` are exactly its descendants.
use vstd::prelude::*;
use crate::grammar::{
    Entry,
    PState,
    array_items,
    count_digits,
    digits,
    finish_entry,
    is_digit,
    object_members,
    parse_array,
    parse_literal,
    parse_number,
    parse_object,
    parse_string,
    parse_text,
    parse_value,
    push_entry,
    scan_string,
    skip_wc,
    with_kind,
    at,
    lemma_skip_ws,
    lemma_line_comment_end,
    lemma_block_comment_end,
    initial_state,
};
use crate::kind::JsonValueKind;

verus! {

/// The bytes `[a, b)` of `t` are decimal digits, but for a minus sign first.
pub open spec fn integer_lexeme(t: Seq<u8>, a: int, b: int) -> bool {
    forall|k: int| a <= k < b ==> is_digit(#[trigger] t[k]) || (k == a && t[k] == 0x2d)
}

/// Entry `e` is a scalar: neither an array nor an object.
pub open spec fn is_scalar(e: Entry) -> bool {
    e.kind != JsonValueKind::Array && e.kind != JsonValueKind::Object
}

/// The bytes `[a, b)` of `t` hold no control character (none below a space).
pub open spec fn no_ctrl(t: Seq<u8>, a: int, b: int) -> bool {
    forall|k: int| a <= k < b ==> #[trigger] t[k] >= 0x20
}

/// From `j` up to `end`, the entries of `v` come in pairs that tile `[j, end)`: a
/// string, then a block.
pub open spec fn keyed(v: Seq<Entry>, j: int, end: int) -> bool
    decreases end - j,
{
    if 0 <= j < end {
        &&& j < v.len()
        &&& v[j].kind == JsonValueKind::String
        &&& j < v[j].end_index < end
        &&& v[j].end_index < v.len()
        &&& v[j].end_index < v[v[j].end_index].end_index <= end
        &&& keyed(v, v[v[j].end_index].end_index, end)
    } else {
        j == end
    }
}

/// Entry `i` of `v` is well placed, with its descendants inside `[i, hi)`.
pub open spec fn entry_in(t: Seq<u8>, v: Seq<Entry>, i: int, hi: int) -> bool {
    &&& 0 <= i < v[i].end_index <= hi <= v.len()
    &&& 0 <= v[i].start < v[i].end <= t.len()
    &&& t[v[i].start] < 0x80
    &&& t[v[i].end - 1] < 0x80
    &&& t[v[i].end - 1] != 0x0a
    &&& (v[i].kind == JsonValueKind::String ==> v[i].start + 2 <= v[i].end && t[v[i].start]
        == 0x22 && t[v[i].end - 1] == 0x22)
    &&& forall|j: int| i < j < v[i].end_index ==> #[trigger] v[j].end_index <= v[i].end_index
    &&& (v[i].kind == JsonValueKind::Integer ==> integer_lexeme(t, v[i].start, v[i].end))
    &&& (v[i].kind != JsonValueKind::Array && v[i].kind != JsonValueKind::Object ==> no_ctrl(
        t,
        v[i].start,
        v[i].end,
    ) && v[i].end_index == i + 1)
    &&& (v[i].kind == JsonValueKind::Object ==> keyed(v, i + 1, v[i].end_index))
    &&& (v[i].kind == JsonValueKind::Array ==> t[v[i].start] == 0x5b && t[v[i].end - 1] == 0x5d)
    &&& (v[i].kind == JsonValueKind::Object ==> t[v[i].start] == 0x7b && t[v[i].end - 1] == 0x7d)
}

/// The entries in `[lo, hi)` are well placed.
pub open spec fn block_in(t: Seq<u8>, v: Seq<Entry>, lo: int, hi: int) -> bool {
    forall|i: int| lo <= i < hi ==> #[trigger] entry_in(t, v, i, hi)
}

/// The index recorded for a whole text: a root at 0 spanning every entry, and every
/// entry well placed.
pub open spec fn index_wf(t: Seq<u8>, v: Seq<Entry>) -> bool {
    &&& v.len() >= 1
    &&& v[0].end_index == v.len()
    &&& block_in(t, v, 0, v.len() as int)
}

/// Exactly one value was recorded, at the end of `st.values`, spanning what was consumed.
pub open spec fn scalar_added(t: Seq<u8>, st: PState, st2: PState) -> bool {
    let n = st.values.len() as int;
    &&& st2.values.len() == n + 1
    &&& forall|i: int| 0 <= i < n ==> #[trigger] st2.values[i] == st.values[i]
    &&& st2.values[n].start == st.pos
    &&& st2.values[n].end == st2.pos
    &&& st2.values[n].end_index == n + 1
    &&& 0 <= st.pos < st2.pos <= t.len()
    &&& t[st.pos] < 0x80
    &&& t[st2.pos - 1] < 0x80
    &&& t[st2.pos - 1] != 0x0a
    &&& (st2.values[n].kind == JsonValueKind::String ==> st.pos + 2 <= st2.pos && t[st.pos]
        == 0x22 && t[st2.pos - 1] == 0x22)
    &&& (st2.values[n].kind == JsonValueKind::Integer ==> integer_lexeme(t, st.pos, st2.pos))
    &&& st2.values[n].kind != JsonValueKind::Array
    &&& st2.values[n].kind != JsonValueKind::Object
    &&& no_ctrl(t, st.pos, st2.pos)
    &&& st2.depth == st.depth
}

/// One value (with its descendants) was recorded after `st.values`.
pub open spec fn value_added(t: Seq<u8>, st: PState, st2: PState) -> bool {
    let n0 = st.values.len() as int;
    let n2 = st2.values.len() as int;
    &&& n0 < n2
    &&& forall|i: int| 0 <= i < n0 ==> #[trigger] st2.values[i] == st.values[i]
    &&& st2.values[n0].end_index == n2
    &&& block_in(t, st2.values, n0, n2)
    &&& st2.depth == st.depth
    &&& 0 <= st.pos < st2.pos <= t.len()
}

proof fn lemma_scalar_is_value(t: Seq<u8>, st: PState, st2: PState)
    requires
        scalar_added(t, st, st2),
    ensures
        value_added(t, st, st2),
{
    let n = st.values.len() as int;
    assert(entry_in(t, st2.values, n, n + 1));
}

proof fn lemma_scan_string_scalar(t: Seq<u8>, st: PState, q: int, escaped: bool)
    requires
        scan_string(t, st, q, escaped) is Ok,
        0 <= st.pos < q,
        t[st.pos] == 0x22,
        st.kind == Some(JsonValueKind::String),
        no_ctrl(t, st.pos, q),
    ensures
        scalar_added(t, st, scan_string(t, st, q, escaped)->Ok_0),
        scan_string(t, st, q, escaped)->Ok_0.kind == Some(JsonValueKind::String),
        scan_string(t, st, q, escaped)->Ok_0.values.last().kind == JsonValueKind::String,
    decreases t.len() - q,
{
    if q < t.len() {
        let b = t[q];
        if b == 0x22 {
            assert(no_ctrl(t, st.pos, q + 1));
        } else if crate::grammar::is_plain_string_byte(b) {
            assert(no_ctrl(t, st.pos, q + 1));
            lemma_scan_string_scalar(t, st, q + 1, escaped);
        } else if b == 0x5c {
            let r = q + 1;
            if r < t.len() && (t[r] == 0x22 || t[r] == 0x5c || t[r] == 0x2f || t[r] == 0x6e || t[r]
                == 0x74 || t[r] == 0x72 || t[r] == 0x62 || t[r] == 0x66) {
                assert(no_ctrl(t, st.pos, r + 1));
                lemma_scan_string_scalar(t, st, r + 1, true);
            } else if r < t.len() && t[r] == 0x75 {
                let h = r + 1;
                if h + 4 <= t.len() {
                    match crate::grammar::hex4(t, h) {
                        Some(code) => {
                            assert(no_ctrl(t, st.pos, h + 4));
                            if crate::grammar::is_high_surrogate(code) {
                                let h2 = h + 6;
                                if crate::grammar::hex4(t, h2) is Some {
                                    assert(no_ctrl(t, st.pos, h2 + 4));
                                    lemma_scan_string_scalar(t, st, h2 + 4, true);
                                }
                            } else if !crate::grammar::is_low_surrogate(code) {
                                lemma_scan_string_scalar(t, st, h + 4, true);
                            }
                        },
                        None => {},
                    }
                }
            }
        }
    }
}

pub proof fn lemma_string_scalar(t: Seq<u8>, st: PState)
    requires
        parse_string(t, st) is Ok,
        0 <= st.pos < t.len(),
        t[st.pos] == 0x22,
    ensures
        scalar_added(t, st, parse_string(t, st)->Ok_0),
        parse_string(t, st)->Ok_0.kind == Some(JsonValueKind::String),
        parse_string(t, st)->Ok_0.values.last().kind == JsonValueKind::String,
{
    let s = with_kind(st, JsonValueKind::String);
    assert(no_ctrl(t, st.pos, st.pos + 1));
    lemma_scan_string_scalar(t, s, st.pos + 1, false);
}

pub proof fn lemma_literal_scalar(t: Seq<u8>, st: PState, kind: JsonValueKind, suffix: Seq<u8>)
    requires
        parse_literal(t, st, kind, suffix) is Ok,
        0 <= st.pos < t.len(),
        0x20 <= t[st.pos] < 0x80,
        suffix.len() >= 1,
        forall|i: int| 0 <= i < suffix.len() ==> 0x20 <= #[trigger] suffix[i] < 0x80,
        suffix[suffix.len() - 1] != 0x0a,
        kind != JsonValueKind::String,
        kind != JsonValueKind::Integer,
        kind != JsonValueKind::Array,
        kind != JsonValueKind::Object,
    ensures
        scalar_added(t, st, parse_literal(t, st, kind, suffix)->Ok_0),
        parse_literal(t, st, kind, suffix)->Ok_0.kind == Some(kind),
{
    let p = st.pos + 1;
    let n = suffix.len();
    assert(t.subrange(p, p + n) == suffix);
    assert(t[p + n - 1] == t.subrange(p, p + n)[n - 1]);
    assert forall|k: int| st.pos <= k < p + n implies #[trigger] t[k] >= 0x20 by {
        if k > st.pos {
            assert(t[k] == t.subrange(p, p + n)[k - p]);
        }
    }
}

proof fn lemma_count_digits_last(t: Seq<u8>, q: int)
    requires
        0 <= q,
        count_digits(t, q) >= 1,
    ensures
        q + count_digits(t, q) <= t.len(),
        is_digit(t[q + count_digits(t, q) - 1]),
    decreases t.len() - q,
{
    if count_digits(t, q + 1) >= 1 {
        lemma_count_digits_last(t, q + 1);
    }
}

proof fn lemma_count_digits_all(t: Seq<u8>, q: int)
    requires
        0 <= q,
    ensures
        forall|k: int| q <= k < q + count_digits(t, q) ==> is_digit(#[trigger] t[k]),
    decreases t.len() - q,
{
    if 0 <= q < t.len() && is_digit(t[q]) {
        lemma_count_digits_all(t, q + 1);
    }
}

proof fn lemma_digits(t: Seq<u8>, k: Option<JsonValueKind>, q: int)
    requires
        0 <= q,
        digits(t, k, q) is Ok,
    ensures
        q < digits(t, k, q)->Ok_0 <= t.len(),
        is_digit(t[digits(t, k, q)->Ok_0 - 1]),
        forall|j: int| q <= j < digits(t, k, q)->Ok_0 ==> is_digit(#[trigger] t[j]),
{
    lemma_count_digits_last(t, q);
    lemma_count_digits_all(t, q);
}

pub proof fn lemma_number_scalar(t: Seq<u8>, st: PState)
    requires
        parse_number(t, st) is Ok,
        0 <= st.pos < t.len(),
        t[st.pos] < 0x80,
    ensures
        scalar_added(t, st, parse_number(t, st)->Ok_0),
        parse_number(t, st)->Ok_0.kind == Some(parse_number(t, st)->Ok_0.values.last().kind),
        parse_number(t, st)->Ok_0.values.last().kind != JsonValueKind::String,
{
    let p0 = st.pos;
    let q0 = if p0 < t.len() && t[p0] == 0x2d {
        p0 + 1
    } else {
        p0
    };
    if q0 < t.len() && t[q0] == 0x30 {
    } else {
        lemma_digits(t, Some(JsonValueKind::Integer), q0);
    }
    let q1 = if q0 < t.len() && t[q0] == 0x30 {
        q0 + 1
    } else {
        digits(t, Some(JsonValueKind::Integer), q0)->Ok_0
    };
    let frac = q1 < t.len() && t[q1] == 0x2e;
    if frac {
        lemma_digits(t, Some(JsonValueKind::Float), q1 + 1);
    }
    let q2 = if frac {
        digits(t, Some(JsonValueKind::Float), q1 + 1)->Ok_0
    } else {
        q1
    };
    let exp = q2 < t.len() && (t[q2] == 0x65 || t[q2] == 0x45);
    let kind = if frac || exp {
        JsonValueKind::Float
    } else {
        JsonValueKind::Integer
    };
    let q3 = if q2 + 1 < t.len() && (t[q2 + 1] == 0x2d || t[q2 + 1] == 0x2b) {
        q2 + 2
    } else {
        q2 + 1
    };
    if exp {
        lemma_digits(t, Some(kind), q3);
    }
    let q4 = if exp {
        digits(t, Some(kind), q3)->Ok_0
    } else {
        q2
    };
    assert forall|k: int| p0 <= k < q4 implies #[trigger] t[k] >= 0x20 by {
        if k < q0 {
        } else if k < q1 {
            if !(q0 < t.len() && t[q0] == 0x30) {
                assert(is_digit(t[k]));
            }
        } else if k == q1 {
        } else if k < q2 {
            assert(is_digit(t[k]));
        } else if k == q2 {
        } else if k < q3 {
        } else {
            assert(is_digit(t[k]));
        }
    }
}

proof fn lemma_keyed_mono(v: Seq<Entry>, v2: Seq<Entry>, j: int, end: int)
    requires
        keyed(v, j, end),
        end <= v2.len(),
        forall|k: int| j <= k < end ==> #[trigger] v2[k] == v[k],
    ensures
        keyed(v2, j, end),
    decreases end - j,
{
    if 0 <= j < end {
        let n = v[j].end_index;
        assert(v2[j] == v[j]);
        assert(v2[n] == v[n]);
        lemma_keyed_mono(v, v2, v[n].end_index, end);
    }
}

proof fn lemma_keyed_concat(v: Seq<Entry>, j: int, n: int, n2: int)
    requires
        keyed(v, j, n),
        keyed(v, n, n2),
    ensures
        keyed(v, j, n2),
    decreases n - j,
{
    if 0 <= j < n {
        lemma_keyed_concat(v, v[v[j].end_index].end_index, n, n2);
    }
}

proof fn lemma_entry_in_mono(t: Seq<u8>, v: Seq<Entry>, v2: Seq<Entry>, i: int, hi: int, hi2: int)
    requires
        entry_in(t, v, i, hi),
        hi <= hi2 <= v2.len(),
        forall|k: int| i <= k < hi ==> #[trigger] v2[k] == v[k],
    ensures
        entry_in(t, v2, i, hi2),
{
    if v[i].kind == JsonValueKind::Object {
        lemma_keyed_mono(v, v2, i + 1, v[i].end_index);
    }
    assert forall|j: int| i < j < v2[i].end_index implies #[trigger] v2[j].end_index
        <= v2[i].end_index by {
        assert(v2[j] == v[j]);
        assert(v[j].end_index <= v[i].end_index);
    }
}

proof fn lemma_block_mono(t: Seq<u8>, v: Seq<Entry>, v2: Seq<Entry>, lo: int, hi: int, hi2: int)
    requires
        block_in(t, v, lo, hi),
        hi <= hi2 <= v2.len(),
        forall|k: int| lo <= k < hi ==> #[trigger] v2[k] == v[k],
    ensures
        forall|i: int| lo <= i < hi ==> #[trigger] entry_in(t, v2, i, hi2),
{
    assert forall|i: int| lo <= i < hi implies #[trigger] entry_in(t, v2, i, hi2) by {
        assert(entry_in(t, v, i, hi));
        lemma_entry_in_mono(t, v, v2, i, hi, hi2);
    }
}

pub proof fn lemma_skip_wc_bounds(t: Seq<u8>, c: bool, p: int, cm: Seq<(int, int)>, k: Option<JsonValueKind>)
    requires
        skip_wc(t, c, p, cm, k) is Ok,
    ensures
        p <= skip_wc(t, c, p, cm, k)->Ok_0.0 <= t.len(),
        0 <= p,
    decreases t.len() - p,
{
    let q = crate::grammar::skip_ws(t, p);
    lemma_skip_ws(t, p);
    if c {
        if q + 1 < t.len() && t[q] == 0x2f && t[q + 1] == 0x2f {
            let e = crate::grammar::line_comment_end(t, q + 2);
            lemma_line_comment_end(t, q + 2);
            lemma_skip_wc_bounds(t, c, e, cm.push((q, e)), k);
        } else if q + 1 < t.len() && t[q] == 0x2f && t[q + 1] == 0x2a {
            let e = crate::grammar::block_comment_end(t, q + 2)->Some_0;
            lemma_block_comment_end(t, q + 2);
            lemma_skip_wc_bounds(t, c, e, cm.push((q, e)), k);
        }
    }
}

/// A value parsed by the grammar occupies one well-formed block of entries.
pub proof fn lemma_value_added(t: Seq<u8>, c: bool, st: PState)
    requires
        parse_value(t, c, st) is Ok,
        st.depth >= 0,
    ensures
        value_added(t, st, parse_value(t, c, st)->Ok_0),
    decreases t.len() - st.pos, 2int,
{
    let (p, cm) = skip_wc(t, c, st.pos, st.comments, st.kind)->Ok_0;
    lemma_skip_wc_bounds(t, c, st.pos, st.comments, st.kind);
    let s1 = PState { pos: p, comments: cm, ..st };
    let b = t[p];
    if b == 0x6e {
        lemma_literal_scalar(t, s1, JsonValueKind::Null, seq![0x75u8, 0x6cu8, 0x6cu8]);
        lemma_scalar_is_value(t, s1, parse_value(t, c, st)->Ok_0);
    } else if b == 0x74 {
        lemma_literal_scalar(t, s1, JsonValueKind::Boolean, seq![0x72u8, 0x75u8, 0x65u8]);
        lemma_scalar_is_value(t, s1, parse_value(t, c, st)->Ok_0);
    } else if b == 0x66 {
        lemma_literal_scalar(
            t,
            s1,
            JsonValueKind::Boolean,
            seq![0x61u8, 0x6cu8, 0x73u8, 0x65u8],
        );
        lemma_scalar_is_value(t, s1, parse_value(t, c, st)->Ok_0);
    } else if b == 0x22 {
        lemma_string_scalar(t, s1);
        lemma_scalar_is_value(t, s1, parse_value(t, c, st)->Ok_0);
    } else if b == 0x5b {
        lemma_array_added(t, c, s1);
    } else if b == 0x7b {
        lemma_object_added(t, c, s1);
    } else {
        lemma_number_scalar(t, s1);
        lemma_scalar_is_value(t, s1, parse_value(t, c, st)->Ok_0);
    }
}

/// The entries of an array: the opening entry at `st.pos`'s start, then its block.
pub proof fn lemma_array_added(t: Seq<u8>, c: bool, st: PState)
    requires
        parse_array(t, c, st) is Ok,
        0 <= st.pos < t.len(),
        t[st.pos] == 0x5b,
        st.depth >= 0,
    ensures
        value_added(t, st, parse_array(t, c, st)->Ok_0),
    decreases t.len() - st.pos, 1int,
{
    let st1 = PState { kind: Some(JsonValueKind::Array), depth: st.depth + 1, ..st };
    let (s, cm) = skip_wc(t, c, st1.pos + 1, st1.comments, st1.kind)->Ok_0;
    lemma_skip_wc_bounds(t, c, st1.pos + 1, st1.comments, st1.kind);
    let st2 = PState { comments: cm, ..st1 };
    let n = st.values.len() as int;
    if s < t.len() && t[s] == 0x5d {
        let r = parse_array(t, c, st)->Ok_0;
        assert(entry_in(t, r.values, n, n + 1));
    } else {
        let st3 = push_entry(st2, s - st2.pos);
        assert(block_in(t, st3.values, n + 1, n + 1));
        lemma_array_items(t, c, st3, n);
    }
}

proof fn lemma_array_items(t: Seq<u8>, c: bool, st: PState, index: int)
    requires
        array_items(t, c, st, index) is Ok,
        0 <= index < st.values.len(),
        0 <= st.values[index].start < st.pos <= t.len(),
        t[st.values[index].start] == 0x5b,
        block_in(t, st.values, index + 1, st.values.len() as int),
        st.values[index].kind == JsonValueKind::Array,
        st.depth >= 1,
    ensures
        ({
            let r = array_items(t, c, st, index)->Ok_0;
            let n2 = r.values.len() as int;
            &&& forall|i: int| 0 <= i < index ==> #[trigger] r.values[i] == st.values[i]
            &&& index < n2
            &&& r.values[index].start == st.values[index].start
            &&& r.values[index].kind == st.values[index].kind
            &&& r.values[index].end_index == n2
            &&& block_in(t, r.values, index, n2)
            &&& r.depth == st.depth - 1
            &&& st.pos < r.pos <= t.len()
        }),
    decreases t.len() - st.pos, 3int,
{
    let n = st.values.len() as int;
    let s2 = parse_value(t, c, st)->Ok_0;
    lemma_value_added(t, c, st);
    let n2 = s2.values.len() as int;
    lemma_block_mono(t, st.values, s2.values, index + 1, n, n2);
    assert(block_in(t, s2.values, index + 1, n2)) by {
        assert forall|i: int| index + 1 <= i < n2 implies #[trigger] entry_in(t, s2.values, i, n2) by {
            if i >= n {
                assert(entry_in(t, s2.values, i, n2));
            }
        }
    }
    let s2k = with_kind(s2, JsonValueKind::Array);
    let (p, cm) = skip_wc(t, c, s2k.pos, s2k.comments, s2k.kind)->Ok_0;
    lemma_skip_wc_bounds(t, c, s2k.pos, s2k.comments, s2k.kind);
    let s3 = PState { pos: p, comments: cm, ..s2k };
    if p < t.len() && t[p] == 0x5d {
        lemma_finish(t, at(s3, p + 1), index);
    } else if c {
        let (p2, cm2) = skip_wc(t, c, p + 1, s3.comments, s3.kind)->Ok_0;
        lemma_skip_wc_bounds(t, c, p + 1, s3.comments, s3.kind);
        let s5 = PState { pos: p2, comments: cm2, ..s3 };
        if p2 < t.len() && t[p2] == 0x5d {
            lemma_finish(t, at(s5, p2 + 1), index);
        } else {
            lemma_array_items(t, c, s5, index);
        }
    } else {
        lemma_array_items(t, c, at(s3, p + 1), index);
    }
}

/// Closing the container at `index` just after a `]` or `}`.
proof fn lemma_finish(t: Seq<u8>, st: PState, index: int)
    requires
        0 <= index < st.values.len(),
        0 <= st.values[index].start < st.pos <= t.len(),
        t[st.values[index].start] < 0x80,
        t[st.pos - 1] < 0x80,
        t[st.pos - 1] != 0x0a,
        st.values[index].kind == JsonValueKind::Array || st.values[index].kind
            == JsonValueKind::Object,
        st.values[index].kind == JsonValueKind::Object ==> keyed(
            st.values,
            index + 1,
            st.values.len() as int,
        ),
        st.values[index].kind == JsonValueKind::Array ==> t[st.values[index].start] == 0x5b
            && t[st.pos - 1] == 0x5d,
        st.values[index].kind == JsonValueKind::Object ==> t[st.values[index].start] == 0x7b
            && t[st.pos - 1] == 0x7d,
        block_in(t, st.values, index + 1, st.values.len() as int),
    ensures
        ({
            let r = finish_entry(st, index);
            let n2 = r.values.len() as int;
            &&& n2 == st.values.len()
            &&& forall|i: int| 0 <= i < index ==> #[trigger] r.values[i] == st.values[i]
            &&& r.values[index].start == st.values[index].start
            &&& r.values[index].kind == st.values[index].kind
            &&& r.values[index].end_index == n2
            &&& r.values[index].end == st.pos
            &&& block_in(t, r.values, index, n2)
            &&& r.depth == st.depth - 1
            &&& r.pos == st.pos
        }),
{
    let r = finish_entry(st, index);
    let n = st.values.len() as int;
    lemma_block_mono(t, st.values, r.values, index + 1, n, n);
    assert forall|i: int| index <= i < n implies #[trigger] entry_in(t, r.values, i, n) by {
        if i == index {
            if st.values[index].kind == JsonValueKind::Object {
                lemma_keyed_mono(st.values, r.values, index + 1, n);
            }
            assert forall|j: int| i < j < r.values[i].end_index implies #[trigger] r.values[j].end_index
                <= r.values[i].end_index by {
                assert(entry_in(t, r.values, j, n));
            }
        }
    }
}

/// The entries of an object: the opening entry, then its keys and values.
pub proof fn lemma_object_added(t: Seq<u8>, c: bool, st: PState)
    requires
        parse_object(t, c, st) is Ok,
        0 <= st.pos < t.len(),
        t[st.pos] == 0x7b,
        st.depth >= 0,
    ensures
        value_added(t, st, parse_object(t, c, st)->Ok_0),
    decreases t.len() - st.pos, 1int,
{
    let st1 = PState { kind: Some(JsonValueKind::Object), depth: st.depth + 1, ..st };
    let (s, cm) = skip_wc(t, c, st1.pos + 1, st1.comments, st1.kind)->Ok_0;
    lemma_skip_wc_bounds(t, c, st1.pos + 1, st1.comments, st1.kind);
    let st2 = PState { comments: cm, ..st1 };
    let n = st.values.len() as int;
    if s < t.len() && t[s] == 0x7d {
        let r = parse_object(t, c, st)->Ok_0;
        assert(entry_in(t, r.values, n, n + 1));
    } else {
        let st3 = push_entry(st2, s - st2.pos);
        assert(block_in(t, st3.values, n + 1, n + 1));
        lemma_object_members(t, c, st3, n);
    }
}

#[verifier::rlimit(60)]
proof fn lemma_object_members(t: Seq<u8>, c: bool, st: PState, index: int)
    requires
        object_members(t, c, st, index) is Ok,
        0 <= index < st.values.len(),
        0 <= st.values[index].start < st.pos <= t.len(),
        t[st.values[index].start] == 0x7b,
        block_in(t, st.values, index + 1, st.values.len() as int),
        st.values[index].kind == JsonValueKind::Object,
        keyed(st.values, index + 1, st.values.len() as int),
        st.depth >= 1,
    ensures
        ({
            let r = object_members(t, c, st, index)->Ok_0;
            let n2 = r.values.len() as int;
            &&& forall|i: int| 0 <= i < index ==> #[trigger] r.values[i] == st.values[i]
            &&& index < n2
            &&& r.values[index].start == st.values[index].start
            &&& r.values[index].kind == st.values[index].kind
            &&& r.values[index].end_index == n2
            &&& block_in(t, r.values, index, n2)
            &&& r.depth == st.depth - 1
            &&& st.pos < r.pos <= t.len()
        }),
    decreases t.len() - st.pos, 3int,
{
    let n = st.values.len() as int;
    // Key.
    let s1 = parse_string(t, st)->Ok_0;
    lemma_string_scalar(t, st);
    lemma_scalar_is_value(t, st, s1);
    let nk = s1.values.len() as int;
    lemma_block_mono(t, st.values, s1.values, index + 1, n, nk);
    assert(block_in(t, s1.values, index + 1, nk)) by {
        assert forall|i: int| index + 1 <= i < nk implies #[trigger] entry_in(t, s1.values, i, nk) by {
            if i >= n {
                assert(entry_in(t, s1.values, i, nk));
            }
        }
    }
    let s1k = with_kind(s1, JsonValueKind::Object);
    let (p, cm) = skip_wc(t, c, s1k.pos, s1k.comments, s1k.kind)->Ok_0;
    lemma_skip_wc_bounds(t, c, s1k.pos, s1k.comments, s1k.kind);
    let s2 = PState { pos: p, comments: cm, ..s1k };
    // Value.
    let s3 = at(s2, p + 1);
    let s4 = parse_value(t, c, s3)->Ok_0;
    lemma_value_added(t, c, s3);
    let n4 = s4.values.len() as int;
    lemma_block_mono(t, s3.values, s4.values, index + 1, nk, n4);
    assert(block_in(t, s4.values, index + 1, n4)) by {
        assert forall|i: int| index + 1 <= i < n4 implies #[trigger] entry_in(t, s4.values, i, n4) by {
            if i >= nk {
                assert(entry_in(t, s4.values, i, n4));
            }
        }
    }
    assert(keyed(s4.values, n, n4)) by {
        assert(s4.values[n] == s1.values[n]);
        assert(keyed(s4.values, n4, n4));
    }
    lemma_keyed_mono(st.values, s4.values, index + 1, n);
    lemma_keyed_concat(s4.values, index + 1, n, n4);
    let s4k = with_kind(s4, JsonValueKind::Object);
    let (q, cm4) = skip_wc(t, c, s4k.pos, s4k.comments, s4k.kind)->Ok_0;
    lemma_skip_wc_bounds(t, c, s4k.pos, s4k.comments, s4k.kind);
    let s5 = PState { pos: q, comments: cm4, ..s4k };
    if q < t.len() && t[q] == 0x7d {
        lemma_finish(t, at(s5, q + 1), index);
    } else {
        let (r, cm6) = skip_wc(t, c, q + 1, s5.comments, s5.kind)->Ok_0;
        lemma_skip_wc_bounds(t, c, q + 1, s5.comments, s5.kind);
        let s7 = PState { pos: r, comments: cm6, ..s5 };
        if c && r < t.len() && t[r] == 0x7d {
            lemma_finish(t, at(s7, r + 1), index);
        } else {
            lemma_object_members(t, c, s7, index);
        }
    }
}

/// The index recorded for an accepted text is well formed.
pub proof fn lemma_parse_text_wf(t: Seq<u8>, c: bool)
    requires
        parse_text(t, c) is Ok,
    ensures
        index_wf(t, parse_text(t, c)->Ok_0.0),
{
    lemma_value_added(t, c, initial_state());
}

} // verus!
