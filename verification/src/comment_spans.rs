//! Where comments lie relative to the values of a parse: no comment starts inside the
//! text of a string, number or literal, or runs over the start, the last byte or the
//! end of a value.
use vstd::prelude::*;
use crate::comments::{
    comments_ok, lemma_comments_mono, lemma_scan_string_comments, lemma_skip_wc_comments,
    lemma_value_comments,
};
use crate::grammar::{
    Entry, PState, array_items, at, finish_entry, initial_state, lemma_block_comment_end,
    lemma_line_comment_end, lemma_skip_ws, object_members, parse_array, parse_object,
    parse_string, parse_text, parse_value, push_entry, skip_wc, skip_ws, with_kind,
};
use crate::kind::JsonValueKind;
use crate::structure::{
    is_scalar, lemma_literal_scalar, lemma_number_scalar, lemma_string_scalar, scalar_added,
};

verus! {

/// How the comments of `cm` lie relative to the values of `v`, with the containers
/// `open` still open and `p` the position reached: no comment starts inside the text
/// of a scalar or runs over the start of a value; no comment runs over the last byte or
/// the end of a closed value; every value starts, and every closed value ends, at or
/// before `p`.
pub open spec fn apart(cm: Seq<(int, int)>, v: Seq<Entry>, p: int, open: Set<int>) -> bool {
    &&& forall|q: int, j: int|
        0 <= q < cm.len() && 0 <= j < v.len() && is_scalar(v[j]) ==> !(#[trigger] v[j].start
            <= #[trigger] cm[q].0 < v[j].end)
    &&& forall|q: int, j: int|
        0 <= q < cm.len() && 0 <= j < v.len() ==> (#[trigger] cm[q]).1 <= (#[trigger] v[j]).start
            || cm[q].0 >= v[j].start
    &&& forall|j: int| 0 <= j < v.len() ==> (#[trigger] v[j]).start <= p
    &&& forall|j: int| 0 <= j < v.len() && is_scalar(#[trigger] v[j]) ==> v[j].end <= p
    &&& forall|j: int| open.contains(j) ==> 0 <= j < v.len()
    &&& forall|j: int| 0 <= j < v.len() && !open.contains(j) ==> (#[trigger] v[j]).end <= p
    &&& forall|q: int, j: int|
        0 <= q < cm.len() && 0 <= j < v.len() && !open.contains(j) ==> (#[trigger] cm[q]).1
            <= (#[trigger] v[j]).end - 1 || cm[q].0 >= v[j].end
}

proof fn lemma_apart_later(cm: Seq<(int, int)>, v: Seq<Entry>, p: int, p2: int, open: Set<int>)
    requires
        apart(cm, v, p, open),
        p <= p2,
    ensures
        apart(cm, v, p2, open),
{
}

/// A comment that starts at or after `p` keeps the comments apart from the values.
proof fn lemma_apart_push_comment(
    cm: Seq<(int, int)>,
    v: Seq<Entry>,
    p: int,
    q: int,
    e: int,
    open: Set<int>,
)
    requires
        apart(cm, v, p, open),
        p <= q,
    ensures
        apart(cm.push((q, e)), v, p, open),
{
    let cm2 = cm.push((q, e));
    assert forall|k: int, j: int|
        0 <= k < cm2.len() && 0 <= j < v.len() && is_scalar(v[j]) implies !(#[trigger] v[j].start
        <= #[trigger] cm2[k].0 < v[j].end) by {
        if k < cm.len() {
            assert(cm2[k] == cm[k]);
        } else {
            assert(v[j].end <= p);
        }
    }
    assert forall|k: int, j: int| 0 <= k < cm2.len() && 0 <= j < v.len() implies (
    #[trigger] cm2[k]).1 <= (#[trigger] v[j]).start || cm2[k].0 >= v[j].start by {
        if k < cm.len() {
            assert(cm2[k] == cm[k]);
        } else {
            assert(v[j].start <= p);
        }
    }
    assert forall|k: int, j: int|
        0 <= k < cm2.len() && 0 <= j < v.len() && !open.contains(j) implies (#[trigger] cm2[k]).1
        <= (#[trigger] v[j]).end - 1 || cm2[k].0 >= v[j].end by {
        if k < cm.len() {
            assert(cm2[k] == cm[k]);
        } else {
            assert(v[j].end <= p);
        }
    }
}

proof fn lemma_skip_wc_apart(
    t: Seq<u8>,
    c: bool,
    p: int,
    cm: Seq<(int, int)>,
    k: Option<JsonValueKind>,
    v: Seq<Entry>,
    open: Set<int>,
)
    requires
        skip_wc(t, c, p, cm, k) is Ok,
        apart(cm, v, p, open),
    ensures
        apart(skip_wc(t, c, p, cm, k)->Ok_0.1, v, skip_wc(t, c, p, cm, k)->Ok_0.0, open),
        p <= skip_wc(t, c, p, cm, k)->Ok_0.0,
    decreases t.len() - p,
{
    let q = skip_ws(t, p);
    lemma_skip_ws(t, p);
    if c {
        if q + 1 < t.len() && t[q] == 0x2f && t[q + 1] == 0x2f {
            let e = crate::grammar::line_comment_end(t, q + 2);
            lemma_line_comment_end(t, q + 2);
            lemma_apart_push_comment(cm, v, p, q, e, open);
            lemma_apart_later(cm.push((q, e)), v, p, e, open);
            lemma_skip_wc_apart(t, c, e, cm.push((q, e)), k, v, open);
        } else if q + 1 < t.len() && t[q] == 0x2f && t[q + 1] == 0x2a {
            let e = crate::grammar::block_comment_end(t, q + 2)->Some_0;
            lemma_block_comment_end(t, q + 2);
            lemma_apart_push_comment(cm, v, p, q, e, open);
            lemma_apart_later(cm.push((q, e)), v, p, e, open);
            lemma_skip_wc_apart(t, c, e, cm.push((q, e)), k, v, open);
        } else {
            lemma_apart_later(cm, v, p, q, open);
        }
    } else {
        lemma_apart_later(cm, v, p, q, open);
    }
}

/// A scalar recorded where the comments so far have ended keeps them apart.
proof fn lemma_apart_scalar(t: Seq<u8>, st: PState, st2: PState, open: Set<int>)
    requires
        apart(st.comments, st.values, st.pos, open),
        comments_ok(t, st.comments, st.pos),
        scalar_added(t, st, st2),
        st2.comments == st.comments,
    ensures
        apart(st2.comments, st2.values, st2.pos, open),
{
    let cm = st.comments;
    let v = st2.values;
    let n = st.values.len() as int;
    assert forall|q: int, j: int|
        0 <= q < cm.len() && 0 <= j < v.len() && is_scalar(v[j]) implies !(#[trigger] v[j].start
        <= #[trigger] cm[q].0 < v[j].end) by {
        if j < n {
            assert(v[j] == st.values[j]);
        } else {
            assert(cm[q].1 <= st.pos);
            assert(crate::comments::comment_ok(t, cm[q].0, cm[q].1));
        }
    }
    assert forall|j: int| 0 <= j < v.len() && is_scalar(#[trigger] v[j]) implies v[j].end
        <= st2.pos by {
        if j < n {
            assert(v[j] == st.values[j]);
        }
    }
    assert forall|q: int, j: int| 0 <= q < cm.len() && 0 <= j < v.len() implies (
    #[trigger] cm[q]).1 <= (#[trigger] v[j]).start || cm[q].0 >= v[j].start by {
        if j < n {
            assert(v[j] == st.values[j]);
        } else {
            assert(cm[q].1 <= st.pos);
        }
    }
    assert forall|j: int| 0 <= j < v.len() implies (#[trigger] v[j]).start <= st2.pos by {
        if j < n {
            assert(v[j] == st.values[j]);
        }
    }
    assert forall|j: int| 0 <= j < v.len() && !open.contains(j) implies (#[trigger] v[j]).end
        <= st2.pos by {
        if j < n {
            assert(v[j] == st.values[j]);
        }
    }
    assert forall|q: int, j: int|
        0 <= q < cm.len() && 0 <= j < v.len() && !open.contains(j) implies (#[trigger] cm[q]).1
        <= (#[trigger] v[j]).end - 1 || cm[q].0 >= v[j].end by {
        if j < n {
            assert(v[j] == st.values[j]);
        } else {
            assert(cm[q].1 <= st.pos);
        }
    }
}

/// A container recorded where the comments so far have ended keeps them apart; it is
/// open.
proof fn lemma_apart_container(
    t: Seq<u8>,
    cm: Seq<(int, int)>,
    v: Seq<Entry>,
    e: Entry,
    p: int,
    open: Set<int>,
)
    requires
        apart(cm, v, p, open),
        comments_ok(t, cm, e.start),
        e.start <= p,
        !is_scalar(e),
    ensures
        apart(cm, v.push(e), p, open.insert(v.len() as int)),
{
    let v2 = v.push(e);
    let open2 = open.insert(v.len() as int);
    assert forall|q: int, j: int|
        0 <= q < cm.len() && 0 <= j < v2.len() && is_scalar(v2[j]) implies !(#[trigger] v2[j].start
        <= #[trigger] cm[q].0 < v2[j].end) by {
        assert(v2[j] == v[j]);
    }
    assert forall|j: int| 0 <= j < v2.len() && is_scalar(#[trigger] v2[j]) implies v2[j].end
        <= p by {
        assert(v2[j] == v[j]);
    }
    assert forall|q: int, j: int| 0 <= q < cm.len() && 0 <= j < v2.len() implies (
    #[trigger] cm[q]).1 <= (#[trigger] v2[j]).start || cm[q].0 >= v2[j].start by {
        if j < v.len() {
            assert(v2[j] == v[j]);
        }
    }
    assert forall|j: int| 0 <= j < v2.len() implies (#[trigger] v2[j]).start <= p by {
        if j < v.len() {
            assert(v2[j] == v[j]);
        }
    }
    assert forall|j: int| 0 <= j < v2.len() && !open2.contains(j) implies (#[trigger] v2[j]).end
        <= p by {
        assert(v2[j] == v[j]);
    }
    assert forall|q: int, j: int|
        0 <= q < cm.len() && 0 <= j < v2.len() && !open2.contains(j) implies (#[trigger] cm[q]).1
        <= (#[trigger] v2[j]).end - 1 || cm[q].0 >= v2[j].end by {
        assert(v2[j] == v[j]);
    }
}

/// Value `n`, ending by `p` with every comment so far ending before its last byte, is
/// closed.
proof fn lemma_apart_seal(t: Seq<u8>, cm: Seq<(int, int)>, v: Seq<Entry>, p: int, open: Set<int>, n: int)
    requires
        apart(cm, v, p, open.insert(n)),
        !open.contains(n),
        0 <= n < v.len(),
        v[n].end <= p,
        comments_ok(t, cm, v[n].end - 1),
    ensures
        apart(cm, v, p, open),
{
    assert forall|j: int| open.contains(j) implies 0 <= j < v.len() by {
        assert(open.insert(n).contains(j));
    }
    assert forall|q: int, j: int|
        0 <= q < cm.len() && 0 <= j < v.len() && !open.contains(j) implies (#[trigger] cm[q]).1
        <= (#[trigger] v[j]).end - 1 || cm[q].0 >= v[j].end by {
        if j != n {
            assert(!open.insert(n).contains(j));
        } else {
            assert(cm[q].1 <= v[n].end - 1);
        }
    }
    assert forall|j: int| 0 <= j < v.len() && !open.contains(j) implies (#[trigger] v[j]).end
        <= p by {
        if j != n {
            assert(!open.insert(n).contains(j));
        }
    }
}

/// Closing a container keeps the comments apart from the values.
proof fn lemma_apart_finish(t: Seq<u8>, st: PState, index: int, open: Set<int>)
    requires
        apart(st.comments, st.values, st.pos, open.insert(index)),
        !open.contains(index),
        0 <= index < st.values.len(),
        !is_scalar(st.values[index]),
        comments_ok(t, st.comments, st.pos - 1),
    ensures
        apart(finish_entry(st, index).comments, finish_entry(st, index).values, st.pos, open),
{
    let v = st.values;
    let v2 = finish_entry(st, index).values;
    let cm = st.comments;
    let open2 = open.insert(index);
    assert forall|q: int, j: int|
        0 <= q < cm.len() && 0 <= j < v2.len() && is_scalar(v2[j]) implies !(#[trigger] v2[j].start
        <= #[trigger] cm[q].0 < v2[j].end) by {
        assert(v2[j] == v[j]);
    }
    assert forall|j: int| 0 <= j < v2.len() && is_scalar(#[trigger] v2[j]) implies v2[j].end
        <= st.pos by {
        assert(v2[j] == v[j]);
    }
    assert forall|q: int, j: int| 0 <= q < cm.len() && 0 <= j < v2.len() implies (
    #[trigger] cm[q]).1 <= (#[trigger] v2[j]).start || cm[q].0 >= v2[j].start by {
        assert(v2[j].start == v[j].start);
    }
    assert forall|j: int| 0 <= j < v2.len() implies (#[trigger] v2[j]).start <= st.pos by {
        assert(v2[j].start == v[j].start);
    }
    assert(apart(cm, v2, st.pos, open2)) by {
        assert forall|j: int| 0 <= j < v2.len() && !open2.contains(j) implies (
        #[trigger] v2[j]).end <= st.pos by {
            assert(v2[j] == v[j]);
        }
        assert forall|q: int, j: int|
            0 <= q < cm.len() && 0 <= j < v2.len() && !open2.contains(j) implies (
        #[trigger] cm[q]).1 <= (#[trigger] v2[j]).end - 1 || cm[q].0 >= v2[j].end by {
            assert(v2[j] == v[j]);
        }
    }
    lemma_apart_seal(t, cm, v2, st.pos, open, index);
}

/// Parsing a value keeps the comments apart from the values; it closes what it opens.
pub proof fn lemma_value_apart(t: Seq<u8>, c: bool, st: PState, open: Set<int>)
    requires
        parse_value(t, c, st) is Ok,
        comments_ok(t, st.comments, st.pos),
        apart(st.comments, st.values, st.pos, open),
        st.depth >= 0,
    ensures
        apart(
            parse_value(t, c, st)->Ok_0.comments,
            parse_value(t, c, st)->Ok_0.values,
            parse_value(t, c, st)->Ok_0.pos,
            open,
        ),
    decreases t.len() - st.pos, 2int,
{
    let (p, cm) = skip_wc(t, c, st.pos, st.comments, st.kind)->Ok_0;
    lemma_skip_wc_comments(t, c, st.pos, st.comments, st.kind);
    lemma_skip_wc_apart(t, c, st.pos, st.comments, st.kind, st.values, open);
    let s1 = PState { pos: p, comments: cm, ..st };
    let r = parse_value(t, c, st)->Ok_0;
    let b = t[p];
    if b == 0x6e {
        lemma_literal_scalar(t, s1, JsonValueKind::Null, seq![0x75u8, 0x6cu8, 0x6cu8]);
        lemma_apart_scalar(t, s1, r, open);
    } else if b == 0x74 {
        lemma_literal_scalar(t, s1, JsonValueKind::Boolean, seq![0x72u8, 0x75u8, 0x65u8]);
        lemma_apart_scalar(t, s1, r, open);
    } else if b == 0x66 {
        lemma_literal_scalar(t, s1, JsonValueKind::Boolean, seq![0x61u8, 0x6cu8, 0x73u8, 0x65u8]);
        lemma_apart_scalar(t, s1, r, open);
    } else if b == 0x22 {
        lemma_string_scalar(t, s1);
        let s = PState { kind: Some(JsonValueKind::String), ..s1 };
        lemma_scan_string_comments(t, s, p + 1, false);
        lemma_apart_scalar(t, s1, r, open);
    } else if b == 0x5b {
        lemma_array_apart(t, c, s1, open);
    } else if b == 0x7b {
        lemma_object_apart(t, c, s1, open);
    } else {
        lemma_number_scalar(t, s1);
        lemma_apart_scalar(t, s1, r, open);
    }
}

proof fn lemma_array_apart(t: Seq<u8>, c: bool, st: PState, open: Set<int>)
    requires
        parse_array(t, c, st) is Ok,
        comments_ok(t, st.comments, st.pos),
        apart(st.comments, st.values, st.pos, open),
        0 <= st.pos < t.len(),
        st.depth >= 0,
    ensures
        apart(
            parse_array(t, c, st)->Ok_0.comments,
            parse_array(t, c, st)->Ok_0.values,
            parse_array(t, c, st)->Ok_0.pos,
            open,
        ),
    decreases t.len() - st.pos, 1int,
{
    let st1 = PState { kind: Some(JsonValueKind::Array), depth: st.depth + 1, ..st };
    lemma_comments_mono(t, st.comments, st.pos, st.pos + 1);
    lemma_apart_later(st.comments, st.values, st.pos, st.pos + 1, open);
    let (s, cm) = skip_wc(t, c, st1.pos + 1, st1.comments, st1.kind)->Ok_0;
    lemma_skip_wc_comments(t, c, st1.pos + 1, st1.comments, st1.kind);
    let st2 = PState { comments: cm, ..st1 };
    let len = if s < t.len() && t[s] == 0x5d {
        s + 1 - st2.pos
    } else {
        s - st2.pos
    };
    let n = st.values.len() as int;
    let e = push_entry(st2, len).values.last();
    assert(push_entry(st2, len).values == st.values.push(e));
    lemma_apart_container(t, st.comments, st.values, e, st.pos + 1, open);
    lemma_skip_wc_apart(t, c, st1.pos + 1, st1.comments, st1.kind, st.values.push(e), open.insert(n));
    if s < t.len() && t[s] == 0x5d {
        lemma_apart_later(cm, st.values.push(e), s, s + 1, open.insert(n));
        lemma_apart_seal(t, cm, st.values.push(e), s + 1, open, n);
    } else {
        lemma_array_items_apart(t, c, push_entry(st2, len), n, open);
    }
}

proof fn lemma_array_items_apart(t: Seq<u8>, c: bool, st: PState, index: int, open: Set<int>)
    requires
        array_items(t, c, st, index) is Ok,
        comments_ok(t, st.comments, st.pos),
        apart(st.comments, st.values, st.pos, open.insert(index)),
        !open.contains(index),
        0 <= index < st.values.len(),
        st.values[index].kind == JsonValueKind::Array,
        st.depth >= 0,
    ensures
        apart(
            array_items(t, c, st, index)->Ok_0.comments,
            array_items(t, c, st, index)->Ok_0.values,
            array_items(t, c, st, index)->Ok_0.pos,
            open,
        ),
    decreases t.len() - st.pos, 3int,
{
    let o2 = open.insert(index);
    let s2 = parse_value(t, c, st)->Ok_0;
    lemma_value_comments(t, c, st);
    lemma_value_apart(t, c, st, o2);
    crate::structure::lemma_value_added(t, c, st);
    let s2 = with_kind(s2, JsonValueKind::Array);
    let (p, cm) = skip_wc(t, c, s2.pos, s2.comments, s2.kind)->Ok_0;
    lemma_skip_wc_comments(t, c, s2.pos, s2.comments, s2.kind);
    lemma_skip_wc_apart(t, c, s2.pos, s2.comments, s2.kind, s2.values, o2);
    let s3 = PState { pos: p, comments: cm, ..s2 };
    assert(s3.values[index] == st.values[index]);
    if p < t.len() && t[p] == 0x5d {
        lemma_apart_later(cm, s3.values, p, p + 1, o2);
        lemma_apart_finish(t, at(s3, p + 1), index, open);
    } else if c {
        lemma_comments_mono(t, cm, p, p + 1);
        lemma_apart_later(cm, s3.values, p, p + 1, o2);
        let (p2, cm2) = skip_wc(t, c, p + 1, s3.comments, s3.kind)->Ok_0;
        lemma_skip_wc_comments(t, c, p + 1, s3.comments, s3.kind);
        lemma_skip_wc_apart(t, c, p + 1, s3.comments, s3.kind, s3.values, o2);
        let s5 = PState { pos: p2, comments: cm2, ..s3 };
        if p2 < t.len() && t[p2] == 0x5d {
            lemma_apart_later(cm2, s5.values, p2, p2 + 1, o2);
            lemma_apart_finish(t, at(s5, p2 + 1), index, open);
        } else {
            lemma_array_items_apart(t, c, s5, index, open);
        }
    } else {
        lemma_comments_mono(t, cm, p, p + 1);
        lemma_apart_later(cm, s3.values, p, p + 1, o2);
        lemma_array_items_apart(t, c, at(s3, p + 1), index, open);
    }
}

proof fn lemma_object_apart(t: Seq<u8>, c: bool, st: PState, open: Set<int>)
    requires
        parse_object(t, c, st) is Ok,
        comments_ok(t, st.comments, st.pos),
        apart(st.comments, st.values, st.pos, open),
        0 <= st.pos < t.len(),
        st.depth >= 0,
    ensures
        apart(
            parse_object(t, c, st)->Ok_0.comments,
            parse_object(t, c, st)->Ok_0.values,
            parse_object(t, c, st)->Ok_0.pos,
            open,
        ),
    decreases t.len() - st.pos, 1int,
{
    let st1 = PState { kind: Some(JsonValueKind::Object), depth: st.depth + 1, ..st };
    lemma_comments_mono(t, st.comments, st.pos, st.pos + 1);
    lemma_apart_later(st.comments, st.values, st.pos, st.pos + 1, open);
    let (s, cm) = skip_wc(t, c, st1.pos + 1, st1.comments, st1.kind)->Ok_0;
    lemma_skip_wc_comments(t, c, st1.pos + 1, st1.comments, st1.kind);
    let st2 = PState { comments: cm, ..st1 };
    let len = if s < t.len() && t[s] == 0x7d {
        s + 1 - st2.pos
    } else {
        s - st2.pos
    };
    let n = st.values.len() as int;
    let e = push_entry(st2, len).values.last();
    assert(push_entry(st2, len).values == st.values.push(e));
    lemma_apart_container(t, st.comments, st.values, e, st.pos + 1, open);
    lemma_skip_wc_apart(t, c, st1.pos + 1, st1.comments, st1.kind, st.values.push(e), open.insert(n));
    if s < t.len() && t[s] == 0x7d {
        lemma_apart_later(cm, st.values.push(e), s, s + 1, open.insert(n));
        lemma_apart_seal(t, cm, st.values.push(e), s + 1, open, n);
    } else {
        lemma_object_members_apart(t, c, push_entry(st2, len), n, open);
    }
}

proof fn lemma_object_members_apart(t: Seq<u8>, c: bool, st: PState, index: int, open: Set<int>)
    requires
        object_members(t, c, st, index) is Ok,
        comments_ok(t, st.comments, st.pos),
        apart(st.comments, st.values, st.pos, open.insert(index)),
        !open.contains(index),
        0 <= index < st.values.len(),
        st.values[index].kind == JsonValueKind::Object,
        st.depth >= 0,
    ensures
        apart(
            object_members(t, c, st, index)->Ok_0.comments,
            object_members(t, c, st, index)->Ok_0.values,
            object_members(t, c, st, index)->Ok_0.pos,
            open,
        ),
    decreases t.len() - st.pos, 3int,
{
    let o2 = open.insert(index);
    let ss = PState { kind: Some(JsonValueKind::String), ..st };
    lemma_scan_string_comments(t, ss, st.pos + 1, false);
    lemma_string_scalar(t, st);
    let s1 = parse_string(t, st)->Ok_0;
    lemma_apart_scalar(t, st, s1, o2);
    lemma_comments_mono(t, st.comments, st.pos, s1.pos);
    let s1 = with_kind(s1, JsonValueKind::Object);
    let (p, cm) = skip_wc(t, c, s1.pos, s1.comments, s1.kind)->Ok_0;
    lemma_skip_wc_comments(t, c, s1.pos, s1.comments, s1.kind);
    lemma_skip_wc_apart(t, c, s1.pos, s1.comments, s1.kind, s1.values, o2);
    let s2 = PState { pos: p, comments: cm, ..s1 };
    lemma_comments_mono(t, cm, p, p + 1);
    lemma_apart_later(cm, s2.values, p, p + 1, o2);
    let s3 = at(s2, p + 1);
    let s4 = parse_value(t, c, s3)->Ok_0;
    lemma_value_comments(t, c, s3);
    lemma_value_apart(t, c, s3, o2);
    crate::structure::lemma_value_added(t, c, s3);
    let s4 = with_kind(s4, JsonValueKind::Object);
    let (q, cm4) = skip_wc(t, c, s4.pos, s4.comments, s4.kind)->Ok_0;
    lemma_skip_wc_comments(t, c, s4.pos, s4.comments, s4.kind);
    lemma_skip_wc_apart(t, c, s4.pos, s4.comments, s4.kind, s4.values, o2);
    let s5 = PState { pos: q, comments: cm4, ..s4 };
    assert(s5.values[index] == st.values[index]);
    lemma_comments_mono(t, cm4, q, q + 1);
    lemma_apart_later(cm4, s5.values, q, q + 1, o2);
    if q < t.len() && t[q] == 0x7d {
        lemma_apart_finish(t, at(s5, q + 1), index, open);
    } else {
        let (r, cm6) = skip_wc(t, c, q + 1, s5.comments, s5.kind)->Ok_0;
        lemma_skip_wc_comments(t, c, q + 1, s5.comments, s5.kind);
        lemma_skip_wc_apart(t, c, q + 1, s5.comments, s5.kind, s5.values, o2);
        let s7 = PState { pos: r, comments: cm6, ..s5 };
        if c && r < t.len() && t[r] == 0x7d {
            lemma_apart_later(cm6, s7.values, r, r + 1, o2);
            lemma_apart_finish(t, at(s7, r + 1), index, open);
        } else {
            lemma_object_members_apart(t, c, s7, index, open);
        }
    }
}

/// Where the comments that a successful parse of a whole text records lie: none starts
/// inside the text of a string, number or literal value, or runs over the start, the
/// last byte or the end of a value.
pub proof fn lemma_parse_text_apart(t: Seq<u8>, c: bool)
    requires
        parse_text(t, c) is Ok,
    ensures
        apart(parse_text(t, c)->Ok_0.1, parse_text(t, c)->Ok_0.0, t.len() as int, Set::empty()),
{
    let st = initial_state();
    lemma_value_apart(t, c, st, Set::empty());
    lemma_value_comments(t, c, st);
    let s1 = parse_value(t, c, st)->Ok_0;
    lemma_skip_wc_apart(t, c, s1.pos, s1.comments, s1.kind, s1.values, Set::empty());
    let (p, cm) = skip_wc(t, c, s1.pos, s1.comments, s1.kind)->Ok_0;
    crate::structure::lemma_skip_wc_bounds(t, c, s1.pos, s1.comments, s1.kind);
    lemma_apart_later(cm, s1.values, p, t.len() as int, Set::empty());
}

} // verus!
