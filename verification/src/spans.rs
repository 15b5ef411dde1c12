//! Where the values that a parse records lie in the text: a value's descendants lie
//! strictly inside its text, and a value that follows them starts after it ends.
use vstd::prelude::*;
use crate::grammar::{
    Entry, PState, array_items, object_members, parse_array, parse_object, parse_string,
    parse_text, parse_value, push_entry, skip_wc, initial_state,
};
use crate::kind::JsonValueKind;
use crate::jsonc_layout::lemma_chain_bounds;
use crate::raw::{chain, chain_find, children, descend, holds, value_at};
use crate::structure::{
    block_in,
    entry_in,
    index_wf,
    lemma_parse_text_wf,
    lemma_skip_wc_bounds,
    lemma_value_added,
};

verus! {

/// How the texts of values `i < j` lie: a descendant of `i` strictly inside `i`'s
/// text, any later value after it.
pub open spec fn span_rel(v: Seq<Entry>, i: int, j: int) -> bool {
    if j < v[i].end_index {
        v[i].start < v[j].start && v[j].end < v[i].end
    } else {
        v[i].end < v[j].start
    }
}

/// Every two values recorded in `[lo, hi)` lie as [`span_rel`] says.
pub open spec fn spans_in(v: Seq<Entry>, lo: int, hi: int) -> bool {
    forall|i: int, j: int| lo <= i < j < hi ==> #[trigger] span_rel(v, i, j)
}

/// The values recorded in `[lo, hi)` lie in the bytes `[a, b)`.
pub open spec fn within(v: Seq<Entry>, lo: int, hi: int, a: int, b: int) -> bool {
    forall|i: int| lo <= i < hi ==> a <= #[trigger] v[i].start && v[i].end <= b
}

/// The values in `[lo, hi)` end before their subtree bounds: each one's descendants
/// are recorded before `hi`.
spec fn bounded(v: Seq<Entry>, lo: int, hi: int) -> bool {
    forall|i: int| lo <= i < hi ==> #[trigger] v[i].end_index <= hi
}

proof fn lemma_block_bounded(t: Seq<u8>, v: Seq<Entry>, lo: int, hi: int)
    requires
        block_in(t, v, lo, hi),
    ensures
        forall|i: int| lo <= i < hi ==> (#[trigger] v[i]).end_index <= hi && v[i].start < v[i].end,
{
    assert forall|i: int| lo <= i < hi implies (#[trigger] v[i]).end_index <= hi && v[i].start
        < v[i].end by {
        assert(entry_in(t, v, i, hi));
    }
}

/// A value parsed by the grammar lies after where the parse started and before where
/// it stopped, and its entries lie as [`span_rel`] says.
pub proof fn lemma_value_spans(t: Seq<u8>, c: bool, st: PState)
    requires
        parse_value(t, c, st) is Ok,
        st.depth >= 0,
    ensures
        ({
            let r = parse_value(t, c, st)->Ok_0;
            &&& spans_in(r.values, st.values.len() as int, r.values.len() as int)
            &&& within(r.values, st.values.len() as int, r.values.len() as int, st.pos, r.pos)
        }),
    decreases t.len() - st.pos, 3int,
{
    lemma_value_added(t, c, st);
    let (p, cm) = skip_wc(t, c, st.pos, st.comments, st.kind)->Ok_0;
    lemma_skip_wc_bounds(t, c, st.pos, st.comments, st.kind);
    let s1 = PState { pos: p, comments: cm, ..st };
    let b = t[p];
    let r = parse_value(t, c, st)->Ok_0;
    let n = st.values.len() as int;
    if b == 0x5b {
        lemma_array_spans(t, c, s1);
    } else if b == 0x7b {
        lemma_object_spans(t, c, s1);
    } else if b == 0x6e {
        crate::structure::lemma_literal_scalar(t, s1, JsonValueKind::Null, seq![0x75u8, 0x6cu8, 0x6cu8]);
    } else if b == 0x74 {
        crate::structure::lemma_literal_scalar(t, s1, JsonValueKind::Boolean, seq![0x72u8, 0x75u8, 0x65u8]);
    } else if b == 0x66 {
        crate::structure::lemma_literal_scalar(
            t,
            s1,
            JsonValueKind::Boolean,
            seq![0x61u8, 0x6cu8, 0x73u8, 0x65u8],
        );
    } else if b == 0x22 {
        crate::structure::lemma_string_scalar(t, s1);
    } else {
        crate::structure::lemma_number_scalar(t, s1);
    }
}

proof fn lemma_array_spans(t: Seq<u8>, c: bool, st: PState)
    requires
        parse_array(t, c, st) is Ok,
        0 <= st.pos < t.len(),
        st.depth >= 0,
    ensures
        ({
            let r = parse_array(t, c, st)->Ok_0;
            &&& spans_in(r.values, st.values.len() as int, r.values.len() as int)
            &&& within(r.values, st.values.len() as int, r.values.len() as int, st.pos, r.pos)
        }),
    decreases t.len() - st.pos, 2int,
{
    let st1 = PState { kind: Some(JsonValueKind::Array), depth: st.depth + 1, ..st };
    let (s, cm) = skip_wc(t, c, st1.pos + 1, st1.comments, st1.kind)->Ok_0;
    lemma_skip_wc_bounds(t, c, st1.pos + 1, st1.comments, st1.kind);
    let st2 = PState { comments: cm, ..st1 };
    let n = st.values.len() as int;
    if s < t.len() && t[s] == 0x5d {
    } else {
        let st3 = push_entry(st2, s - st2.pos);
        lemma_array_items_spans(t, c, st3, n);
    }
}

proof fn lemma_object_spans(t: Seq<u8>, c: bool, st: PState)
    requires
        parse_object(t, c, st) is Ok,
        0 <= st.pos < t.len(),
        st.depth >= 0,
    ensures
        ({
            let r = parse_object(t, c, st)->Ok_0;
            &&& spans_in(r.values, st.values.len() as int, r.values.len() as int)
            &&& within(r.values, st.values.len() as int, r.values.len() as int, st.pos, r.pos)
        }),
    decreases t.len() - st.pos, 2int,
{
    let st1 = PState { kind: Some(JsonValueKind::Object), depth: st.depth + 1, ..st };
    let (s, cm) = skip_wc(t, c, st1.pos + 1, st1.comments, st1.kind)->Ok_0;
    lemma_skip_wc_bounds(t, c, st1.pos + 1, st1.comments, st1.kind);
    let st2 = PState { comments: cm, ..st1 };
    let n = st.values.len() as int;
    if s < t.len() && t[s] == 0x7d {
    } else {
        let st3 = push_entry(st2, s - st2.pos);
        lemma_object_members_spans(t, c, st3, n);
    }
}

/// What holds of the entries after the open container at `index` while its items
/// are parsed: they lie as [`span_rel`] says, after the container's start and before
/// `pos`.
spec fn open_items(v: Seq<Entry>, index: int, pos: int) -> bool {
    &&& 0 <= index < v.len()
    &&& v[index].start < pos
    &&& spans_in(v, index + 1, v.len() as int)
    &&& bounded(v, index + 1, v.len() as int)
    &&& forall|i: int| index < i < v.len() ==> v[index].start < #[trigger] v[i].start && v[i].end
        < pos
}

/// Appending the entries of a value parsed from `pos` on keeps the open items as
/// [`open_items`] says, up to where the value ends.
proof fn lemma_append_value(t: Seq<u8>, c: bool, st: PState, index: int)
    requires
        parse_value(t, c, st) is Ok,
        st.depth >= 0,
        open_items(st.values, index, st.pos),
    ensures
        ({
            let r = parse_value(t, c, st)->Ok_0;
            &&& spans_in(r.values, index + 1, r.values.len() as int)
            &&& bounded(r.values, index + 1, r.values.len() as int)
            &&& forall|i: int| index < i < r.values.len() ==> st.values[index].start
                < #[trigger] r.values[i].start && r.values[i].end <= r.pos
            &&& forall|i: int| 0 <= i <= index ==> #[trigger] r.values[i] == st.values[i]
            &&& st.pos < r.pos
            &&& st.values.len() < r.values.len()
            &&& r.depth == st.depth
        }),
    decreases t.len() - st.pos, 4int,
{
    let r = parse_value(t, c, st)->Ok_0;
    let n = st.values.len() as int;
    let n2 = r.values.len() as int;
    lemma_value_added(t, c, st);
    lemma_value_spans(t, c, st);
    lemma_block_bounded(t, r.values, n, n2);
    assert forall|i: int, j: int| index + 1 <= i < j < n2 implies #[trigger] span_rel(
        r.values,
        i,
        j,
    ) by {
        if j < n {
            assert(r.values[i] == st.values[i]);
            assert(r.values[j] == st.values[j]);
            assert(span_rel(st.values, i, j));
        } else if i < n {
            assert(r.values[i] == st.values[i]);
            assert(st.values[i].end_index <= n);
        }
    }
    assert forall|i: int| index + 1 <= i < n2 implies #[trigger] r.values[i].end_index <= n2 by {
        if i < n {
            assert(r.values[i] == st.values[i]);
        }
    }
    assert forall|i: int| index < i < n2 implies st.values[index].start
        < #[trigger] r.values[i].start && r.values[i].end <= r.pos by {
        if i < n {
            assert(r.values[i] == st.values[i]);
        }
    }
}

proof fn lemma_array_items_spans(t: Seq<u8>, c: bool, st: PState, index: int)
    requires
        array_items(t, c, st, index) is Ok,
        open_items(st.values, index, st.pos),
        st.depth >= 1,
    ensures
        ({
            let r = array_items(t, c, st, index)->Ok_0;
            &&& spans_in(r.values, index, r.values.len() as int)
            &&& within(r.values, index, r.values.len() as int, st.values[index].start, r.pos)
            &&& r.values[index].start == st.values[index].start
            &&& forall|i: int| 0 <= i < index ==> #[trigger] r.values[i] == st.values[i]
        }),
    decreases t.len() - st.pos, 5int,
{
    let s2 = parse_value(t, c, st)->Ok_0;
    lemma_append_value(t, c, st, index);
    assert(open_items(s2.values, index, s2.pos + 1));
    let s2k = crate::grammar::with_kind(s2, JsonValueKind::Array);
    let (p, cm) = skip_wc(t, c, s2k.pos, s2k.comments, s2k.kind)->Ok_0;
    lemma_skip_wc_bounds(t, c, s2k.pos, s2k.comments, s2k.kind);
    let s3 = PState { pos: p, comments: cm, ..s2k };
    lemma_open_items_mono(s2.values, index, s2.pos + 1, p + 1);
    if p < t.len() && t[p] == 0x5d {
        lemma_close(s3.values, index, p + 1);
    } else if c {
        let (p2, cm2) = skip_wc(t, c, p + 1, s3.comments, s3.kind)->Ok_0;
        lemma_skip_wc_bounds(t, c, p + 1, s3.comments, s3.kind);
        let s5 = PState { pos: p2, comments: cm2, ..s3 };
        lemma_open_items_mono(s2.values, index, p + 1, p2 + 1);
        if p2 < t.len() && t[p2] == 0x5d {
            lemma_close(s5.values, index, p2 + 1);
        } else {
            lemma_open_items_mono(s2.values, index, p + 1, p2);
            lemma_array_items_spans(t, c, s5, index);
        }
    } else {
        lemma_array_items_spans(t, c, crate::grammar::at(s3, p + 1), index);
    }
}

proof fn lemma_object_members_spans(t: Seq<u8>, c: bool, st: PState, index: int)
    requires
        object_members(t, c, st, index) is Ok,
        open_items(st.values, index, st.pos),
        st.depth >= 1,
    ensures
        ({
            let r = object_members(t, c, st, index)->Ok_0;
            &&& spans_in(r.values, index, r.values.len() as int)
            &&& within(r.values, index, r.values.len() as int, st.values[index].start, r.pos)
            &&& r.values[index].start == st.values[index].start
            &&& forall|i: int| 0 <= i < index ==> #[trigger] r.values[i] == st.values[i]
        }),
    decreases t.len() - st.pos, 5int,
{
    // The key is a string value recorded at `st.pos`.
    let s1 = parse_string(t, st)->Ok_0;
    lemma_append_key(t, st, index);
    let s1k = crate::grammar::with_kind(s1, JsonValueKind::Object);
    let (p, cm) = skip_wc(t, c, s1k.pos, s1k.comments, s1k.kind)->Ok_0;
    lemma_skip_wc_bounds(t, c, s1k.pos, s1k.comments, s1k.kind);
    let s2 = PState { pos: p, comments: cm, ..s1k };
    let s3 = crate::grammar::at(s2, p + 1);
    lemma_open_items_mono(s1.values, index, s1.pos + 1, p + 1);
    let s4 = parse_value(t, c, s3)->Ok_0;
    lemma_append_value(t, c, s3, index);
    assert(open_items(s4.values, index, s4.pos + 1));
    let s4k = crate::grammar::with_kind(s4, JsonValueKind::Object);
    let (q, cm4) = skip_wc(t, c, s4k.pos, s4k.comments, s4k.kind)->Ok_0;
    lemma_skip_wc_bounds(t, c, s4k.pos, s4k.comments, s4k.kind);
    let s5 = PState { pos: q, comments: cm4, ..s4k };
    lemma_open_items_mono(s4.values, index, s4.pos + 1, q + 1);
    if q < t.len() && t[q] == 0x7d {
        lemma_close(s5.values, index, q + 1);
    } else {
        let (r, cm6) = skip_wc(t, c, q + 1, s5.comments, s5.kind)->Ok_0;
        lemma_skip_wc_bounds(t, c, q + 1, s5.comments, s5.kind);
        let s7 = PState { pos: r, comments: cm6, ..s5 };
        lemma_open_items_mono(s4.values, index, q + 1, r + 1);
        if c && r < t.len() && t[r] == 0x7d {
            lemma_close(s7.values, index, r + 1);
        } else {
            lemma_open_items_mono(s4.values, index, q + 1, r);
            lemma_object_members_spans(t, c, s7, index);
        }
    }
}

/// Recording the key of a member keeps the open items as [`open_items`] says.
proof fn lemma_append_key(t: Seq<u8>, st: PState, index: int)
    requires
        parse_string(t, st) is Ok,
        0 <= st.pos < t.len(),
        t[st.pos] == 0x22,
        open_items(st.values, index, st.pos),
    ensures
        ({
            let s1 = parse_string(t, st)->Ok_0;
            &&& open_items(s1.values, index, s1.pos + 1)
            &&& forall|i: int| 0 <= i <= index ==> #[trigger] s1.values[i] == st.values[i]
            &&& st.pos < s1.pos
            &&& s1.depth == st.depth
        }),
{
    let n = st.values.len() as int;
    let s1 = parse_string(t, st)->Ok_0;
    crate::structure::lemma_string_scalar(t, st);
    assert forall|i: int, j: int| index + 1 <= i < j < s1.values.len() implies #[trigger] span_rel(
        s1.values,
        i,
        j,
    ) by {
        assert(s1.values[i] == st.values[i]);
        if j < n {
            assert(s1.values[j] == st.values[j]);
            assert(span_rel(st.values, i, j));
        } else {
            assert(st.values[i].end_index <= n);
        }
    }
    assert forall|i: int| index < i < s1.values.len() implies st.values[index].start
        < #[trigger] s1.values[i].start && s1.values[i].end < s1.pos + 1 by {
        if i < n {
            assert(s1.values[i] == st.values[i]);
        }
    }
    assert forall|i: int| index + 1 <= i < s1.values.len() implies #[trigger] s1.values[i].end_index
        <= s1.values.len() by {
        if i < n {
            assert(s1.values[i] == st.values[i]);
        }
    }
}

proof fn lemma_open_items_mono(v: Seq<Entry>, index: int, pos: int, pos2: int)
    requires
        open_items(v, index, pos),
        pos <= pos2,
    ensures
        open_items(v, index, pos2),
{
}

/// Closing the container at `index` at `pos`: every value after it lies inside it.
proof fn lemma_close(v: Seq<Entry>, index: int, pos: int)
    requires
        open_items(v, index, pos),
    ensures
        ({
            let r = crate::grammar::finish_entry(PState { pos, kind: None, values: v, comments: seq![], depth: 1 }, index).values;
            &&& spans_in(r, index, r.len() as int)
            &&& within(r, index, r.len() as int, v[index].start, pos)
        }),
{
    let r = crate::grammar::finish_entry(
        PState { pos, kind: None, values: v, comments: seq![], depth: 1 },
        index,
    ).values;
    assert forall|i: int, j: int| index <= i < j < r.len() implies #[trigger] span_rel(r, i, j) by {
        if i > index {
            assert(span_rel(v, i, j));
        }
    }
}

/// The values that a successful parse of a whole text records lie as [`span_rel`]
/// says.
pub proof fn lemma_parse_text_spans(t: Seq<u8>, c: bool)
    requires
        parse_text(t, c) is Ok,
    ensures
        spans_in(parse_text(t, c)->Ok_0.0, 0, parse_text(t, c)->Ok_0.0.len() as int),
{
    lemma_value_spans(t, c, initial_state());
}

/// Byte `pos` lies in value `j`'s own text: in it, but in none of its descendants.
pub open spec fn own_byte(ev: Seq<Entry>, j: int, pos: int) -> bool {
    &&& holds(ev[j], pos)
    &&& forall|d: int| j < d < ev[j].end_index ==> !holds(#[trigger] ev[d], pos)
}

proof fn lemma_chain_find_holds(ev: Seq<Entry>, s: int, end: int, pos: int)
    ensures
        chain_find(ev, s, end, pos) matches Some(c) ==> s <= c < end && c < ev.len() && holds(
            ev[c],
            pos,
        ),
    decreases end - s,
{
    if 0 <= s < end && s < ev.len() && s < ev[s].end_index <= end {
        if !holds(ev[s], pos) {
            lemma_chain_find_holds(ev, ev[s].end_index, end, pos);
        }
    }
}

/// Walking the children of `a` from `s` on finds the one whose subtree holds `j`.
proof fn lemma_chain_to(t: Seq<u8>, ev: Seq<Entry>, a: int, s: int, j: int, pos: int)
    requires
        index_wf(t, ev),
        spans_in(ev, 0, ev.len() as int),
        0 <= a < s <= j < ev[a].end_index,
        j < ev.len(),
        own_byte(ev, j, pos),
    ensures
        chain_find(ev, s, ev[a].end_index, pos) matches Some(c) && s <= c <= j < ev[c].end_index,
    decreases j - s,
{
    let end = ev[a].end_index;
    assert(entry_in(t, ev, a, ev.len() as int));
    assert(entry_in(t, ev, s, ev.len() as int));
    assert(ev[s].end_index <= end);
    if j < ev[s].end_index {
        if s < j {
            assert(span_rel(ev, s, j));
        }
    } else {
        assert(span_rel(ev, s, j));
        lemma_chain_to(t, ev, a, ev[s].end_index, j, pos);
    }
}

/// From any value whose subtree holds `j`, descending towards a byte of `j`'s own text
/// reaches `j`.
proof fn lemma_descend_to(t: Seq<u8>, ev: Seq<Entry>, a: int, j: int, pos: int)
    requires
        index_wf(t, ev),
        spans_in(ev, 0, ev.len() as int),
        0 <= a <= j < ev[a].end_index,
        j < ev.len(),
        own_byte(ev, j, pos),
    ensures
        descend(ev, a, pos) == j,
    decreases j - a,
{
    assert(entry_in(t, ev, a, ev.len() as int));
    assert(entry_in(t, ev, j, ev.len() as int));
    if a == j {
        lemma_chain_find_holds(ev, j + 1, ev[j].end_index, pos);
    } else {
        lemma_chain_to(t, ev, a, a + 1, j, pos);
        let c = chain_find(ev, a + 1, ev[a].end_index, pos)->Some_0;
        assert(entry_in(t, ev, c, ev.len() as int));
        lemma_descend_to(t, ev, c, j, pos);
    }
}

/// Value `0` holds every byte of the own text of any value.
proof fn lemma_root_holds(t: Seq<u8>, ev: Seq<Entry>, j: int, pos: int)
    requires
        index_wf(t, ev),
        spans_in(ev, 0, ev.len() as int),
        0 <= j < ev.len(),
        holds(ev[j], pos),
    ensures
        value_at(ev, pos) == Some(descend(ev, 0, pos)),
{
    if j > 0 {
        assert(span_rel(ev, 0, j));
    }
}

/// Looking a value up by the position where it starts finds it: in an accepted text,
/// the most specific value that holds the first byte of a value is that value.
pub proof fn lemma_value_at_start(t: Seq<u8>, c: bool, j: int)
    requires
        parse_text(t, c) is Ok,
        0 <= j < parse_text(t, c)->Ok_0.0.len(),
    ensures
        ({
            let ev = parse_text(t, c)->Ok_0.0;
            value_at(ev, ev[j].start) == Some(j)
        }),
{
    let ev = parse_text(t, c)->Ok_0.0;
    lemma_parse_text_wf(t, c);
    lemma_parse_text_spans(t, c);
    let pos = ev[j].start;
    assert(entry_in(t, ev, j, ev.len() as int));
    assert forall|d: int| j < d < ev[j].end_index implies !holds(#[trigger] ev[d], pos) by {
        assert(span_rel(ev, j, d));
    }
    assert(entry_in(t, ev, 0, ev.len() as int));
    lemma_root_holds(t, ev, j, pos);
    lemma_descend_to(t, ev, 0, j, pos);
}

/// A value of the chain from `s` lies after every value before it in the chain's
/// subtrees: no value from `s` up to it has it as a descendant.
proof fn lemma_chain_child(t: Seq<u8>, ev: Seq<Entry>, s: int, end: int, k: int)
    requires
        index_wf(t, ev),
        0 <= k < chain(ev, s, end).len(),
    ensures
        forall|d: int| s <= d < chain(ev, s, end)[k] ==> #[trigger] ev[d].end_index <= chain(
            ev,
            s,
            end,
        )[k],
    decreases end - s,
{
    let ch = chain(ev, s, end);
    let x = ch[k];
    let next = ev[s].end_index;
    assert(entry_in(t, ev, s, ev.len() as int));
    if k > 0 {
        lemma_chain_child(t, ev, next, end, k - 1);
        lemma_chain_bounds(ev, next, end);
        assert(x == chain(ev, next, end)[k - 1]);
        assert forall|d: int| s <= d < x implies #[trigger] ev[d].end_index <= x by {
            if d < next {
                if d > s {
                    assert(ev[d].end_index <= ev[s].end_index);
                }
            }
        }
    }
}

/// The parent of a value is the container it is a child of: in an accepted text, the
/// most specific value that holds the byte just before a child of value `i` is `i`.
pub proof fn lemma_value_before_child(t: Seq<u8>, c: bool, i: int, k: int)
    requires
        parse_text(t, c) is Ok,
        0 <= i < parse_text(t, c)->Ok_0.0.len(),
        0 <= k < children(parse_text(t, c)->Ok_0.0, i).len(),
    ensures
        ({
            let ev = parse_text(t, c)->Ok_0.0;
            value_at(ev, ev[children(ev, i)[k]].start - 1) == Some(i)
        }),
{
    let ev = parse_text(t, c)->Ok_0.0;
    lemma_parse_text_wf(t, c);
    lemma_parse_text_spans(t, c);
    assert(entry_in(t, ev, i, ev.len() as int));
    let ch = children(ev, i);
    let x = ch[k];
    lemma_chain_bounds(ev, i + 1, ev[i].end_index);
    lemma_chain_child(t, ev, i + 1, ev[i].end_index, k);
    assert(entry_in(t, ev, x, ev.len() as int));
    let pos = ev[x].start - 1;
    assert(span_rel(ev, i, x));
    assert forall|d: int| i < d < ev[i].end_index implies !holds(#[trigger] ev[d], pos) by {
        if d < x {
            assert(ev[d].end_index <= x);
            assert(span_rel(ev, d, x));
        } else if d > x {
            assert(span_rel(ev, x, d));
        }
    }
    assert(entry_in(t, ev, 0, ev.len() as int));
    lemma_root_holds(t, ev, i, pos);
    lemma_descend_to(t, ev, 0, i, pos);
}

} // verus!
