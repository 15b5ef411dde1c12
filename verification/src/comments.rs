//! The comments that a JSONC parse records: each range covers one `//` or `/* */`
//! comment of the text, and the ranges come in text order without overlapping.
use vstd::prelude::*;
use crate::grammar::{
    PState, array_items, block_comment_end, lemma_block_comment_end, lemma_line_comment_end,
    lemma_skip_ws, line_comment_end, object_members, parse_array, parse_object, parse_string,
    parse_text, parse_value, scan_string, skip_wc, skip_ws, initial_state, is_plain_string_byte,
    hex4, is_high_surrogate, is_low_surrogate,
};
use crate::kind::JsonValueKind;

verus! {

/// `[q, e)` is a comment of `t`: a `//` comment running to the next line feed (or the
/// end of the text), or a `/* */` comment ending with its `*/`.
pub open spec fn comment_ok(t: Seq<u8>, q: int, e: int) -> bool {
    &&& 0 <= q
    &&& q + 2 <= e <= t.len()
    &&& t[q] == 0x2f
    &&& ((t[q + 1] == 0x2f && (e == t.len() || t[e] == 0x0a) && forall|k: int|
        q + 2 <= k < e ==> #[trigger] t[k] != 0x0a) || (t[q + 1] == 0x2a && q + 4 <= e && t[e - 1]
        == 0x2f))
}

/// Every range of `cm` is a comment of `t` ending at or before `p`, and the ranges are
/// in text order without overlapping.
pub open spec fn comments_ok(t: Seq<u8>, cm: Seq<(int, int)>, p: int) -> bool {
    &&& 0 <= p <= t.len()
    &&& forall|i: int| 0 <= i < cm.len() ==> comment_ok(t, cm[i].0, cm[i].1) && #[trigger] cm[i].1 <= p
    &&& forall|i: int, j: int| 0 <= i < j < cm.len() ==> #[trigger] cm[i].1 <= #[trigger] cm[j].0
}

pub proof fn lemma_comments_mono(t: Seq<u8>, cm: Seq<(int, int)>, p: int, p2: int)
    requires
        comments_ok(t, cm, p),
        p <= p2 <= t.len(),
    ensures
        comments_ok(t, cm, p2),
{
}

proof fn lemma_comments_push(t: Seq<u8>, cm: Seq<(int, int)>, p: int, q: int, e: int)
    requires
        comments_ok(t, cm, p),
        p <= q,
        comment_ok(t, q, e),
    ensures
        comments_ok(t, cm.push((q, e)), e),
{
    let cm2 = cm.push((q, e));
    assert forall|i: int, j: int| 0 <= i < j < cm2.len() implies #[trigger] cm2[i].1
        <= #[trigger] cm2[j].0 by {
        if j == cm.len() {
            assert(cm[i].1 <= p);
        } else {
            assert(cm[i].1 <= cm[j].0);
        }
    }
    assert forall|i: int| 0 <= i < cm2.len() implies comment_ok(t, cm2[i].0, cm2[i].1)
        && #[trigger] cm2[i].1 <= e by {
        if i < cm.len() {
            assert(cm[i].1 <= p);
        }
    }
}

/// Skipping whitespace and comments keeps the comment list well formed.
pub proof fn lemma_skip_wc_comments(
    t: Seq<u8>,
    c: bool,
    p: int,
    cm: Seq<(int, int)>,
    k: Option<JsonValueKind>,
)
    requires
        skip_wc(t, c, p, cm, k) is Ok,
        comments_ok(t, cm, p),
    ensures
        comments_ok(t, skip_wc(t, c, p, cm, k)->Ok_0.1, skip_wc(t, c, p, cm, k)->Ok_0.0),
        p <= skip_wc(t, c, p, cm, k)->Ok_0.0,
    decreases t.len() - p,
{
    let q = skip_ws(t, p);
    lemma_skip_ws(t, p);
    if c {
        if q + 1 < t.len() && t[q] == 0x2f && t[q + 1] == 0x2f {
            let e = line_comment_end(t, q + 2);
            lemma_line_comment_end(t, q + 2);
            lemma_comments_push(t, cm, p, q, e);
            lemma_skip_wc_comments(t, c, e, cm.push((q, e)), k);
        } else if q + 1 < t.len() && t[q] == 0x2f && t[q + 1] == 0x2a {
            let e = block_comment_end(t, q + 2)->Some_0;
            lemma_block_comment_end(t, q + 2);
            lemma_comments_push(t, cm, p, q, e);
            lemma_skip_wc_comments(t, c, e, cm.push((q, e)), k);
        } else {
            lemma_comments_mono(t, cm, p, q);
        }
    } else {
        lemma_comments_mono(t, cm, p, q);
    }
}

pub proof fn lemma_scan_string_comments(t: Seq<u8>, st: PState, q: int, escaped: bool)
    requires
        scan_string(t, st, q, escaped) is Ok,
        st.pos <= q,
    ensures
        scan_string(t, st, q, escaped)->Ok_0.comments == st.comments,
        q < scan_string(t, st, q, escaped)->Ok_0.pos <= t.len(),
    decreases t.len() - q,
{
    if 0 <= q < t.len() {
        let b = t[q];
        if b == 0x22 {
        } else if is_plain_string_byte(b) {
            lemma_scan_string_comments(t, st, q + 1, escaped);
        } else if b == 0x5c {
            let r = q + 1;
            if r < t.len() && (t[r] == 0x22 || t[r] == 0x5c || t[r] == 0x2f || t[r] == 0x6e || t[r]
                == 0x74 || t[r] == 0x72 || t[r] == 0x62 || t[r] == 0x66) {
                lemma_scan_string_comments(t, st, r + 1, true);
            } else if r < t.len() && t[r] == 0x75 {
                let h = r + 1;
                if h + 4 <= t.len() {
                    match hex4(t, h) {
                        Some(code) => {
                            if is_high_surrogate(code) {
                                lemma_scan_string_comments(t, st, h + 6 + 4, true);
                            } else if !is_low_surrogate(code) {
                                lemma_scan_string_comments(t, st, h + 4, true);
                            }
                        },
                        None => {},
                    }
                }
            }
        }
    }
}

/// Parsing a value keeps the comment list well formed.
pub proof fn lemma_value_comments(t: Seq<u8>, c: bool, st: PState)
    requires
        parse_value(t, c, st) is Ok,
        comments_ok(t, st.comments, st.pos),
    ensures
        comments_ok(t, parse_value(t, c, st)->Ok_0.comments, parse_value(t, c, st)->Ok_0.pos),
        st.pos < parse_value(t, c, st)->Ok_0.pos,
    decreases t.len() - st.pos, 2int,
{
    let (p, cm) = skip_wc(t, c, st.pos, st.comments, st.kind)->Ok_0;
    lemma_skip_wc_comments(t, c, st.pos, st.comments, st.kind);
    let s1 = PState { pos: p, comments: cm, ..st };
    let r = parse_value(t, c, st)->Ok_0;
    let b = t[p];
    if b == 0x22 {
        let s = PState { kind: Some(JsonValueKind::String), ..s1 };
        lemma_scan_string_comments(t, s, p + 1, false);
        lemma_comments_mono(t, cm, p, r.pos);
    } else if b == 0x5b {
        lemma_array_comments(t, c, s1);
    } else if b == 0x7b {
        lemma_object_comments(t, c, s1);
    } else if b == 0x6e || b == 0x74 || b == 0x66 {
        lemma_comments_mono(t, cm, p, r.pos);
    } else {
        crate::structure::lemma_number_scalar(t, s1);
        lemma_comments_mono(t, cm, p, r.pos);
    }
}

proof fn lemma_array_comments(t: Seq<u8>, c: bool, st: PState)
    requires
        parse_array(t, c, st) is Ok,
        comments_ok(t, st.comments, st.pos),
        0 <= st.pos < t.len(),
    ensures
        comments_ok(t, parse_array(t, c, st)->Ok_0.comments, parse_array(t, c, st)->Ok_0.pos),
        st.pos < parse_array(t, c, st)->Ok_0.pos,
    decreases t.len() - st.pos, 1int,
{
    let st1 = PState { kind: Some(JsonValueKind::Array), depth: st.depth + 1, ..st };
    lemma_comments_mono(t, st.comments, st.pos, st.pos + 1);
    let (s, cm) = skip_wc(t, c, st1.pos + 1, st1.comments, st1.kind)->Ok_0;
    lemma_skip_wc_comments(t, c, st1.pos + 1, st1.comments, st1.kind);
    let st2 = PState { comments: cm, ..st1 };
    if s < t.len() && t[s] == 0x5d {
        lemma_comments_mono(t, cm, s, s + 1);
    } else {
        let index = st2.values.len() as int;
        let st3 = crate::grammar::push_entry(st2, s - st2.pos);
        lemma_array_items_comments(t, c, st3, index);
    }
}

proof fn lemma_array_items_comments(t: Seq<u8>, c: bool, st: PState, index: int)
    requires
        array_items(t, c, st, index) is Ok,
        comments_ok(t, st.comments, st.pos),
    ensures
        comments_ok(
            t,
            array_items(t, c, st, index)->Ok_0.comments,
            array_items(t, c, st, index)->Ok_0.pos,
        ),
        st.pos < array_items(t, c, st, index)->Ok_0.pos,
    decreases t.len() - st.pos, 3int,
{
    let s2 = parse_value(t, c, st)->Ok_0;
    lemma_value_comments(t, c, st);
    let s2 = crate::grammar::with_kind(s2, JsonValueKind::Array);
    let (p, cm) = skip_wc(t, c, s2.pos, s2.comments, s2.kind)->Ok_0;
    lemma_skip_wc_comments(t, c, s2.pos, s2.comments, s2.kind);
    let s3 = PState { pos: p, comments: cm, ..s2 };
    if p < t.len() && t[p] == 0x5d {
        lemma_comments_mono(t, cm, p, p + 1);
    } else if c {
        lemma_comments_mono(t, cm, p, p + 1);
        let (p2, cm2) = skip_wc(t, c, p + 1, s3.comments, s3.kind)->Ok_0;
        lemma_skip_wc_comments(t, c, p + 1, s3.comments, s3.kind);
        let s5 = PState { pos: p2, comments: cm2, ..s3 };
        if p2 < t.len() && t[p2] == 0x5d {
            lemma_comments_mono(t, cm2, p2, p2 + 1);
        } else {
            lemma_array_items_comments(t, c, s5, index);
        }
    } else {
        lemma_comments_mono(t, cm, p, p + 1);
        lemma_array_items_comments(t, c, crate::grammar::at(s3, p + 1), index);
    }
}

proof fn lemma_object_comments(t: Seq<u8>, c: bool, st: PState)
    requires
        parse_object(t, c, st) is Ok,
        comments_ok(t, st.comments, st.pos),
        0 <= st.pos < t.len(),
    ensures
        comments_ok(t, parse_object(t, c, st)->Ok_0.comments, parse_object(t, c, st)->Ok_0.pos),
        st.pos < parse_object(t, c, st)->Ok_0.pos,
    decreases t.len() - st.pos, 1int,
{
    let st1 = PState { kind: Some(JsonValueKind::Object), depth: st.depth + 1, ..st };
    lemma_comments_mono(t, st.comments, st.pos, st.pos + 1);
    let (s, cm) = skip_wc(t, c, st1.pos + 1, st1.comments, st1.kind)->Ok_0;
    lemma_skip_wc_comments(t, c, st1.pos + 1, st1.comments, st1.kind);
    let st2 = PState { comments: cm, ..st1 };
    if s < t.len() && t[s] == 0x7d {
        lemma_comments_mono(t, cm, s, s + 1);
    } else {
        let index = st2.values.len() as int;
        let st3 = crate::grammar::push_entry(st2, s - st2.pos);
        lemma_object_members_comments(t, c, st3, index);
    }
}

proof fn lemma_object_members_comments(t: Seq<u8>, c: bool, st: PState, index: int)
    requires
        object_members(t, c, st, index) is Ok,
        comments_ok(t, st.comments, st.pos),
    ensures
        comments_ok(
            t,
            object_members(t, c, st, index)->Ok_0.comments,
            object_members(t, c, st, index)->Ok_0.pos,
        ),
        st.pos < object_members(t, c, st, index)->Ok_0.pos,
    decreases t.len() - st.pos, 3int,
{
    let ss = PState { kind: Some(JsonValueKind::String), ..st };
    lemma_scan_string_comments(t, ss, st.pos + 1, false);
    let s1 = parse_string(t, st)->Ok_0;
    lemma_comments_mono(t, st.comments, st.pos, s1.pos);
    let s1 = crate::grammar::with_kind(s1, JsonValueKind::Object);
    let (p, cm) = skip_wc(t, c, s1.pos, s1.comments, s1.kind)->Ok_0;
    lemma_skip_wc_comments(t, c, s1.pos, s1.comments, s1.kind);
    let s2 = PState { pos: p, comments: cm, ..s1 };
    lemma_comments_mono(t, cm, p, p + 1);
    let s4 = parse_value(t, c, crate::grammar::at(s2, p + 1))->Ok_0;
    lemma_value_comments(t, c, crate::grammar::at(s2, p + 1));
    let s4 = crate::grammar::with_kind(s4, JsonValueKind::Object);
    let (q, cm4) = skip_wc(t, c, s4.pos, s4.comments, s4.kind)->Ok_0;
    lemma_skip_wc_comments(t, c, s4.pos, s4.comments, s4.kind);
    let s5 = PState { pos: q, comments: cm4, ..s4 };
    lemma_comments_mono(t, cm4, q, q + 1);
    if q < t.len() && t[q] == 0x7d {
    } else {
        let (r, cm6) = skip_wc(t, c, q + 1, s5.comments, s5.kind)->Ok_0;
        lemma_skip_wc_comments(t, c, q + 1, s5.comments, s5.kind);
        let s7 = PState { pos: r, comments: cm6, ..s5 };
        if c && r < t.len() && t[r] == 0x7d {
            lemma_comments_mono(t, cm6, r, r + 1);
        } else {
            lemma_object_members_comments(t, c, s7, index);
        }
    }
}

/// The comments that a successful parse of a whole text records are comments of the
/// text, in text order and without overlapping.
pub proof fn lemma_parse_text_comments(t: Seq<u8>, c: bool)
    requires
        parse_text(t, c) is Ok,
    ensures
        comments_ok(t, parse_text(t, c)->Ok_0.1, t.len() as int),
{
    let st = initial_state();
    lemma_value_comments(t, c, st);
    let s1 = parse_value(t, c, st)->Ok_0;
    lemma_skip_wc_comments(t, c, s1.pos, s1.comments, s1.kind);
    let (p, cm) = skip_wc(t, c, s1.pos, s1.comments, s1.kind)->Ok_0;
    lemma_comments_mono(t, cm, p, t.len() as int);
}

} // verus!
