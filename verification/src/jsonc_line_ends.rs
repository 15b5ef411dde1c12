//! Line-break characters in the JSONC formatter's output: a carriage return outside
//! the comments of the input, alone or as the first half of a CRLF, never reaches the
//! output; inside a comment, only the one that ends a CRLF line is dropped.
use vstd::prelude::*;
use crate::comments::{comment_ok, comments_ok, lemma_parse_text_comments};
use crate::grammar::{Entry, parse_text};
use crate::jsonc_format::JsoncFormatter;
use crate::jsonc_layout::{
    Doc, Item, comments_from, drop_commas, gap_items, lead_spaces, lemma_chain_bounds,
    lemma_lead_spaces, lemma_next_lf, lemma_split_from, next_lf, scan_from, spaces, split_at,
    splits, comment_starts,
};
use crate::kind::JsonValueKind;
use crate::raw::{chain, children, pairs};
use crate::structure::{entry_in, index_wf, keyed, lemma_parse_text_wf};

verus! {

/// The bytes `[a, b)` of `t` hold a carriage return only as the first half of a CRLF.
pub open spec fn crlf_only(t: Seq<u8>, a: int, b: int) -> bool {
    forall|k: int| a <= k < b && #[trigger] t[k] == 0x0d ==> k + 1 < t.len() && t[k + 1] == 0x0a
}

/// `s` holds no carriage return.
pub open spec fn no_cr(s: Seq<u8>) -> bool {
    forall|k: int| 0 <= k < s.len() ==> #[trigger] s[k] != 0x0d
}

/// Every comment among `items` is a comment of `t` whose carriage returns begin CRLFs.
spec fn items_crlf(t: Seq<u8>, items: Seq<Item>) -> bool {
    forall|i: int|
        0 <= i < items.len() ==> match #[trigger] items[i] {
            Item::Comment(a, b) => comment_ok(t, a as int, b as int) && crlf_only(t, a as int, b as int),
            _ => true,
        }
}

/// Every range of `cm` is a comment of `t` whose carriage returns begin CRLFs.
spec fn cm_crlf(t: Seq<u8>, cm: Seq<(int, int)>) -> bool {
    &&& t.len() <= usize::MAX
    &&& forall|k: int|
        0 <= k < cm.len() ==> comment_ok(t, (#[trigger] cm[k]).0, cm[k].1) && crlf_only(
            t,
            cm[k].0,
            cm[k].1,
        )
}

proof fn lemma_add(a: Seq<u8>, b: Seq<u8>)
    requires
        no_cr(a),
        no_cr(b),
    ensures
        no_cr(a + b),
{
    assert forall|k: int| 0 <= k < (a + b).len() implies #[trigger] (a + b)[k] != 0x0d by {
        if k < a.len() {
            assert((a + b)[k] == a[k]);
        } else {
            assert((a + b)[k] == b[k - a.len()]);
        }
    }
}

proof fn lemma_push(a: Seq<u8>, c: u8)
    requires
        no_cr(a),
        c != 0x0d,
    ensures
        no_cr(a.push(c)),
{
    assert forall|k: int| 0 <= k < a.push(c).len() implies #[trigger] a.push(c)[k] != 0x0d by {
        if k < a.len() {
            assert(a.push(c)[k] == a[k]);
        }
    }
}

proof fn lemma_spaces(o: Seq<u8>, n: nat)
    requires
        no_cr(o),
    ensures
        no_cr(o + spaces(n)),
{
    lemma_add(o, spaces(n));
}

proof fn lemma_copy(o: Seq<u8>, t: Seq<u8>, a: int, b: int)
    requires
        no_cr(o),
        0 <= a <= b <= t.len(),
        forall|k: int| a <= k < b ==> #[trigger] t[k] != 0x0d,
    ensures
        no_cr(o + t.subrange(a, b)),
{
    let s = t.subrange(a, b);
    assert forall|k: int| 0 <= k < s.len() implies #[trigger] s[k] != 0x0d by {
        assert(s[k] == t[a + k]);
    }
    lemma_add(o, s);
}

proof fn lemma_indent(d: Doc, o: Seq<u8>, level: int)
    requires
        no_cr(o),
    ensures
        no_cr(d.indent(o, level)),
{
    lemma_spaces(o, crate::jsonc_layout::sat_mul(d.f.indent_size as int, level) as nat);
}

proof fn lemma_newline(d: Doc, o: Seq<u8>, last: int, next: int)
    requires
        no_cr(o),
    ensures
        no_cr(d.newline_and_blank(o, last, next)),
{
    lemma_push(o, 0x0a);
    lemma_push(o.push(0x0a), 0x0a);
    lemma_push(o, 0x0a);
}

proof fn lemma_line_start(d: Doc, o: Seq<u8>, last: int, next: int, level: int)
    requires
        no_cr(o),
    ensures
        no_cr(d.indent(d.newline_and_blank(o, last, next), level)),
{
    lemma_newline(d, o, last, next);
    lemma_indent(d, d.newline_and_blank(o, last, next), level);
}

proof fn lemma_block_lines(
    d: Doc,
    o: Seq<u8>,
    b: int,
    ls: int,
    first: bool,
    in_col: int,
    out_col: int,
)
    requires
        no_cr(o),
        0 < b <= d.t.len(),
        d.t[b - 1] == 0x2f,
        crlf_only(d.t, ls, b),
    ensures
        no_cr(d.block_lines(o, b, ls, first, in_col, out_col)),
    decreases b - ls,
{
    let t = d.t;
    if !(ls < 0 || ls > b || b > t.len()) {
        lemma_next_lf(t, ls, b);
        let le = next_lf(t, ls, b);
        let last = le >= b;
        let line_end = if !last && le > ls && t[le - 1] == 0x0d {
            le - 1
        } else {
            le
        };
        assert forall|k: int| ls <= k < line_end implies #[trigger] t[k] != 0x0d by {
            if t[k] == 0x0d {
                assert(t[k + 1] == 0x0a);
                if k + 1 < le {
                    assert(t[k + 1] != 0x0a);
                }
            }
        }
        let o2 = if first {
            o + t.subrange(ls, line_end)
        } else {
            let lead = lead_spaces(t, ls, line_end);
            let adjusted = if out_col >= in_col {
                crate::jsonc_layout::sat_add(lead, out_col - in_col)
            } else if lead >= in_col - out_col {
                lead - (in_col - out_col)
            } else {
                0
            };
            o.push(0x0a) + spaces(adjusted as nat) + t.subrange(ls + lead, line_end)
        };
        if first {
            lemma_copy(o, t, ls, line_end);
        } else {
            lemma_lead_spaces(t, ls, line_end);
            let lead = lead_spaces(t, ls, line_end);
            let adjusted = if out_col >= in_col {
                crate::jsonc_layout::sat_add(lead, out_col - in_col)
            } else if lead >= in_col - out_col {
                lead - (in_col - out_col)
            } else {
                0
            };
            lemma_push(o, 0x0a);
            lemma_spaces(o.push(0x0a), adjusted as nat);
            lemma_copy(o.push(0x0a) + spaces(adjusted as nat), t, ls + lead, line_end);
        }
        if !(last || le + 1 <= ls) {
            lemma_block_lines(d, o2, b, le + 1, false, in_col, out_col);
        }
    }
}

proof fn lemma_comment(d: Doc, o: Seq<u8>, a: int, b: int)
    requires
        no_cr(o),
        comment_ok(d.t, a, b),
        crlf_only(d.t, a, b),
    ensures
        no_cr(d.comment(o, a, b)),
{
    let t = d.t;
    if t[a + 1] == 0x2f {
        let end = if t[b - 1] == 0x0d && b < t.len() && t[b] == 0x0a {
            b - 1
        } else {
            b
        };
        assert forall|k: int| a <= k < end implies #[trigger] t[k] != 0x0d by {
            if t[k] == 0x0d {
                assert(t[k + 1] == 0x0a);
                if k + 1 < b {
                    assert(t[k + 1] != 0x0a);
                }
            }
        }
        lemma_copy(o, t, a, end);
    } else {
        lemma_block_lines(
            d,
            o,
            b,
            a,
            true,
            a - crate::error::line_start(t, a),
            crate::jsonc_format::column(o) as int,
        );
    }
}

proof fn lemma_gap_from(
    d: Doc,
    o: Seq<u8>,
    level: int,
    prev_end: int,
    items: Seq<Item>,
    k: int,
    at_ls: bool,
    last_line: int,
    lce: int,
    force: bool,
)
    requires
        no_cr(o),
        items_crlf(d.t, items),
    ensures
        no_cr(d.gap_from(o, level, prev_end, items, k, at_ls, last_line, lce, force).0),
    decreases items.len() - k,
{
    if 0 <= k < items.len() {
        let item = items[k];
        let pos = item.spec_position() as int;
        let line = if force {
            last_line + 1
        } else {
            crate::jsonc_layout::line_breaks(d.t, d.cm, prev_end, pos)
        };
        let o1 = if line > last_line {
            d.indent(d.newline_and_blank(o, lce, pos), level)
        } else {
            o
        };
        let at1 = if line > last_line {
            true
        } else {
            at_ls
        };
        lemma_line_start(d, o, lce, pos, level);
        match item {
            Item::Comment(a, b) => {
                let oc = if !at1 {
                    o1.push(0x20)
                } else {
                    o1
                };
                lemma_push(o1, 0x20);
                lemma_comment(d, oc, a as int, b as int);
                lemma_gap_from(
                    d,
                    d.comment(oc, a as int, b as int),
                    level,
                    prev_end,
                    items,
                    k + 1,
                    false,
                    line,
                    b as int,
                    force,
                );
            },
            Item::Comma(_) => {
                lemma_push(o1, 0x2c);
                lemma_gap_from(d, o1.push(0x2c), level, prev_end, items, k + 1, false, line, lce, force);
            },
            Item::Colon(_) => {
                lemma_push(o1, 0x3a);
                lemma_gap_from(d, o1.push(0x3a), level, prev_end, items, k + 1, false, line, lce, force);
            },
        }
    }
}

proof fn lemma_gap(
    d: Doc,
    o: Seq<u8>,
    level: int,
    prev_end: int,
    items: Seq<Item>,
    initial: bool,
    force: bool,
)
    requires
        no_cr(o),
        items_crlf(d.t, items),
    ensures
        no_cr(d.gap(o, level, prev_end, items, initial, force).0),
{
    lemma_gap_from(d, o, level, prev_end, items, 0, initial, 0, prev_end, force);
}

proof fn lemma_inline_from(d: Doc, o: Seq<u8>, items: Seq<Item>, k: int)
    requires
        no_cr(o),
        items_crlf(d.t, items),
    ensures
        no_cr(d.inline_from(o, items, k)),
    decreases items.len() - k,
{
    if 0 <= k < items.len() {
        let o1 = match items[k] {
            Item::Comment(a, b) => d.comment(o.push(0x20), a as int, b as int),
            Item::Comma(_) => o.push(0x2c),
            Item::Colon(_) => o.push(0x3a),
        };
        match items[k] {
            Item::Comment(a, b) => {
                lemma_push(o, 0x20);
                lemma_comment(d, o.push(0x20), a as int, b as int);
            },
            Item::Comma(_) => lemma_push(o, 0x2c),
            Item::Colon(_) => lemma_push(o, 0x3a),
        }
        lemma_inline_from(d, o1, items, k + 1);
    }
}

proof fn lemma_gap_comments_from(d: Doc, o: Seq<u8>, items: Seq<Item>, k: int, space_after: bool)
    requires
        no_cr(o),
        items_crlf(d.t, items),
    ensures
        no_cr(d.gap_comments_from(o, items, k, space_after)),
    decreases items.len() - k,
{
    if 0 <= k < items.len() {
        let o1 = match items[k] {
            Item::Comment(a, b) => if space_after {
                d.comment(o, a as int, b as int).push(0x20)
            } else {
                d.comment(o.push(0x20), a as int, b as int)
            },
            _ => o,
        };
        match items[k] {
            Item::Comment(a, b) => {
                if space_after {
                    lemma_comment(d, o, a as int, b as int);
                    lemma_push(d.comment(o, a as int, b as int), 0x20);
                } else {
                    lemma_push(o, 0x20);
                    lemma_comment(d, o.push(0x20), a as int, b as int);
                }
            },
            _ => {},
        }
        lemma_gap_comments_from(d, o1, items, k + 1, space_after);
    }
}

proof fn lemma_items_add(t: Seq<u8>, a: Seq<Item>, b: Seq<Item>)
    requires
        items_crlf(t, a),
        items_crlf(t, b),
    ensures
        items_crlf(t, a + b),
{
    assert forall|i: int| 0 <= i < (a + b).len() implies match #[trigger] (a + b)[i] {
        Item::Comment(x, y) => comment_ok(t, x as int, y as int) && crlf_only(t, x as int, y as int),
        _ => true,
    } by {
        if i < a.len() {
            assert((a + b)[i] == a[i]);
        } else {
            assert((a + b)[i] == b[i - a.len()]);
        }
    }
}

proof fn lemma_scan_from(t: Seq<u8>, cm: Seq<(int, int)>, p: int, ci: int, end: int)
    requires
        cm_crlf(t, cm),
    ensures
        items_crlf(t, scan_from(t, cm, p, ci, end)),
    decreases t.len() - p,
{
    if !(p < 0 || p >= end || p >= t.len()) {
        if comment_starts(t, cm, ci, p) {
            let x = seq![Item::Comment(p as usize, cm[ci].1 as usize)];
            assert(comment_ok(t, cm[ci].0, cm[ci].1));
            assert(items_crlf(t, x));
            lemma_scan_from(t, cm, cm[ci].1, ci + 1, end);
            lemma_items_add(t, x, scan_from(t, cm, cm[ci].1, ci + 1, end));
        } else if t[p] == 0x2c {
            let x = seq![Item::Comma(p as usize)];
            assert(items_crlf(t, x));
            lemma_scan_from(t, cm, p + 1, ci, end);
            lemma_items_add(t, x, scan_from(t, cm, p + 1, ci, end));
        } else if t[p] == 0x3a {
            let x = seq![Item::Colon(p as usize)];
            assert(items_crlf(t, x));
            lemma_scan_from(t, cm, p + 1, ci, end);
            lemma_items_add(t, x, scan_from(t, cm, p + 1, ci, end));
        } else {
            lemma_scan_from(t, cm, p + 1, ci, end);
        }
    }
}

proof fn lemma_gap_items(t: Seq<u8>, cm: Seq<(int, int)>, start: int, end: int)
    requires
        cm_crlf(t, cm),
    ensures
        items_crlf(t, gap_items(t, cm, start, end)),
{
    if start < end {
        lemma_scan_from(t, cm, start, split_at(cm, start, true), end);
    }
}

proof fn lemma_comments_from(t: Seq<u8>, cm: Seq<(int, int)>, lo: int, hi: int, from: int)
    requires
        cm_crlf(t, cm),
        0 <= lo,
        hi <= cm.len(),
    ensures
        items_crlf(t, comments_from(cm, lo, hi, from)),
    decreases hi - lo,
{
    if lo < hi {
        lemma_comments_from(t, cm, lo, hi - 1, from);
        assert(comment_ok(t, cm[hi - 1].0, cm[hi - 1].1));
        let x = if cm[hi - 1].0 >= from {
            seq![Item::Comment(cm[hi - 1].0 as usize, cm[hi - 1].1 as usize)]
        } else {
            Seq::<Item>::empty()
        };
        assert(items_crlf(t, x));
        lemma_items_add(t, comments_from(cm, lo, hi - 1, from), x);
    }
}

proof fn lemma_drop_commas(t: Seq<u8>, items: Seq<Item>)
    requires
        items_crlf(t, items),
    ensures
        items_crlf(t, drop_commas(items)),
    decreases items.len(),
{
    if items.len() > 0 {
        assert(items_crlf(t, items.drop_last())) by {
            assert forall|i: int| 0 <= i < items.drop_last().len() implies match #[trigger] items.drop_last()[i] {
                Item::Comment(x, y) => comment_ok(t, x as int, y as int) && crlf_only(t, x as int, y as int),
                _ => true,
            } by {
                assert(items.drop_last()[i] == items[i]);
            }
        }
        lemma_drop_commas(t, items.drop_last());
        let x = if items.last() is Comma {
            Seq::<Item>::empty()
        } else {
            seq![items.last()]
        };
        assert(items_crlf(t, x)) by {
            if !(items.last() is Comma) {
                assert(x[0] == items[items.len() - 1]);
            }
        }
        lemma_items_add(t, drop_commas(items.drop_last()), x);
    }
}

proof fn lemma_trailing(d: Doc, i: int, multiline: bool, tail: Seq<Item>)
    requires
        items_crlf(d.t, tail),
    ensures
        items_crlf(d.t, d.trailing(i, multiline, tail)),
{
    lemma_drop_commas(d.t, tail);
    let x = seq![Item::Comma(d.last_end(i) as usize)];
    assert(items_crlf(d.t, x));
    lemma_items_add(d.t, x, tail);
}

pub proof fn lemma_keyed_pairs(ev: Seq<Entry>, j: int, end: int)
    requires
        keyed(ev, j, end),
    ensures
        forall|m: int|
            0 <= m < pairs(chain(ev, j, end)).len() ==> ev[(#[trigger] pairs(
                chain(ev, j, end),
            )[m]).0].kind == JsonValueKind::String,
    decreases end - j,
{
    if 0 <= j < end {
        let n = ev[j].end_index;
        let e2 = ev[n].end_index;
        lemma_keyed_pairs(ev, e2, end);
        let rest = chain(ev, e2, end);
        let c = chain(ev, j, end);
        assert(chain(ev, n, end) == seq![n] + rest);
        assert(c == seq![j] + (seq![n] + rest));
        assert forall|m: int| 0 <= m < pairs(c).len() implies ev[(#[trigger] pairs(c)[m]).0].kind
            == JsonValueKind::String by {
            if m > 0 {
                assert(pairs(c)[m].0 == c[2 * m]);
                assert(c[2 * m] == rest[2 * (m - 1)]);
                assert(pairs(rest)[m - 1].0 == rest[2 * (m - 1)]);
            }
        }
    }
}

/// Key `k` of object `i`: a string entry after `i`, with no control byte in its text.
proof fn lemma_key(d: Doc, i: int, k: int)
    requires
        index_wf(d.t, d.ev),
        0 <= i < d.ev.len(),
        d.ev[i].kind == JsonValueKind::Object,
        0 <= k < d.members(i).len(),
    ensures
        i < d.members(i)[k].0 < d.ev.len(),
        forall|p: int|
            d.ev[d.members(i)[k].0].start <= p < d.ev[d.members(i)[k].0].end ==> #[trigger] d.t[p]
                != 0x0d,
        0 <= d.ev[d.members(i)[k].0].start <= d.ev[d.members(i)[k].0].end <= d.t.len(),
{
    let ev = d.ev;
    assert(entry_in(d.t, ev, i, ev.len() as int));
    lemma_keyed_pairs(ev, i + 1, ev[i].end_index);
    lemma_chain_bounds(ev, i + 1, ev[i].end_index);
    let ch = children(ev, i);
    let m = d.members(i);
    assert(m[k] == pairs(ch)[k]);
    assert(m[k].0 == ch[2 * k]);
    assert(i + 1 <= ch[2 * k] < ev[i].end_index);
    let key = m[k].0;
    assert(entry_in(d.t, ev, key, ev.len() as int));
    assert(ev[key].kind == JsonValueKind::String);
    assert forall|p: int| ev[key].start <= p < ev[key].end implies #[trigger] d.t[p] != 0x0d by {
        assert(d.t[p] >= 0x20);
    }
}

proof fn lemma_value(d: Doc, o: Seq<u8>, level: int, i: int)
    requires
        index_wf(d.t, d.ev),
        cm_crlf(d.t, d.cm),
        no_cr(o),
    ensures
        no_cr(d.value(o, level, i)),
    decreases d.ev.len() - i, 3int, 0int,
{
    if 0 <= i < d.ev.len() {
        assert(entry_in(d.t, d.ev, i, d.ev.len() as int));
        if d.ev[i].kind == JsonValueKind::Array {
            if d.multiline(i) {
                lemma_ml_array(d, o, level, i);
            } else {
                lemma_sl_array(d, o, level, i);
            }
        } else if d.ev[i].kind == JsonValueKind::Object {
            if d.multiline(i) {
                lemma_ml_object(d, o, level, i);
            } else {
                lemma_sl_object(d, o, level, i);
            }
        } else {
            let e = d.ev[i];
            assert forall|p: int| e.start <= p < e.end implies #[trigger] d.t[p] != 0x0d by {
                assert(d.t[p] >= 0x20);
            }
            lemma_copy(o, d.t, e.start, e.end);
        }
    }
}

proof fn lemma_ml_array(d: Doc, o: Seq<u8>, level: int, i: int)
    requires
        index_wf(d.t, d.ev),
        cm_crlf(d.t, d.cm),
        no_cr(o),
        0 <= i < d.ev.len(),
    ensures
        no_cr(d.ml_array(o, level, i)),
    decreases d.ev.len() - i, 2int, 0int,
{
    let open = d.ev[i].start;
    let close = d.ev[i].end - 1;
    let inner = crate::jsonc_layout::sat_add(level, 1);
    let o1 = o.push(0x5b);
    lemma_push(o, 0x5b);
    let e = d.kids(i);
    if e.len() == 0 {
        let items = gap_items(d.t, d.cm, open + 1, close);
        lemma_gap_items(d.t, d.cm, open + 1, close);
        lemma_gap(d, o1, inner, open + 1, items, false, true);
        let r = d.gap(o1, inner, open + 1, items, false, true);
        lemma_line_start(d, r.0, r.2, close, level);
        lemma_push(d.indent(d.newline_and_blank(r.0, r.2, close), level), 0x5d);
    } else {
        lemma_ml_elems(d, o1, inner, i, 0);
        let o2 = d.ml_elems(o1, inner, i, 0);
        let last_end = d.ev[e.last()].end;
        let g = gap_items(d.t, d.cm, last_end, close);
        lemma_gap_items(d.t, d.cm, last_end, close);
        lemma_trailing(d, i, true, g);
        let tail = d.trailing(i, true, g);
        lemma_gap(d, o2, inner, last_end, tail, false, false);
        let r = d.gap(o2, inner, last_end, tail, false, false);
        lemma_line_start(d, r.0, r.2, close, level);
        lemma_push(d.indent(d.newline_and_blank(r.0, r.2, close), level), 0x5d);
    }
}

proof fn lemma_ml_elems(d: Doc, o: Seq<u8>, inner: int, i: int, k: int)
    requires
        index_wf(d.t, d.ev),
        cm_crlf(d.t, d.cm),
        no_cr(o),
    ensures
        no_cr(d.ml_elems(o, inner, i, k)),
    decreases d.ev.len() - i, 1int, d.kids(i).len() - k,
{
    let e = d.kids(i);
    if !(k < 0 || k >= e.len() || !(i < e[k] < d.ev.len())) {
        let c = e[k];
        let prev_end = if k == 0 {
            d.ev[i].start + 1
        } else {
            d.ev[e[k - 1]].end
        };
        let items = gap_items(d.t, d.cm, prev_end, d.ev[c].start);
        lemma_gap_items(d.t, d.cm, prev_end, d.ev[c].start);
        lemma_gap(d, o, inner, prev_end, items, false, k == 0);
        let r = d.gap(o, inner, prev_end, items, false, k == 0);
        lemma_line_start(d, r.0, r.2, d.ev[c].start, inner);
        let o2 = d.indent(d.newline_and_blank(r.0, r.2, d.ev[c].start), inner);
        lemma_value(d, o2, inner, c);
        lemma_ml_elems(d, d.value(o2, inner, c), inner, i, k + 1);
    }
}

proof fn lemma_ml_object(d: Doc, o: Seq<u8>, level: int, i: int)
    requires
        index_wf(d.t, d.ev),
        cm_crlf(d.t, d.cm),
        no_cr(o),
        0 <= i < d.ev.len(),
        d.ev[i].kind == JsonValueKind::Object,
    ensures
        no_cr(d.ml_object(o, level, i)),
    decreases d.ev.len() - i, 2int, 0int,
{
    let open = d.ev[i].start;
    let close = d.ev[i].end - 1;
    let inner = crate::jsonc_layout::sat_add(level, 1);
    let o1 = o.push(0x7b);
    lemma_push(o, 0x7b);
    let m = d.members(i);
    if m.len() == 0 {
        let items = gap_items(d.t, d.cm, open + 1, close);
        lemma_gap_items(d.t, d.cm, open + 1, close);
        lemma_gap(d, o1, inner, open + 1, items, false, true);
        let r = d.gap(o1, inner, open + 1, items, false, true);
        lemma_line_start(d, r.0, r.2, close, level);
        lemma_push(d.indent(d.newline_and_blank(r.0, r.2, close), level), 0x7d);
    } else {
        lemma_ml_members(d, o1, inner, i, 0);
        let o2 = d.ml_members(o1, inner, i, 0);
        let last_end = d.ev[m.last().1].end;
        let g = gap_items(d.t, d.cm, last_end, close);
        lemma_gap_items(d.t, d.cm, last_end, close);
        lemma_trailing(d, i, true, g);
        let tail = d.trailing(i, true, g);
        lemma_gap(d, o2, inner, last_end, tail, false, false);
        let r = d.gap(o2, inner, last_end, tail, false, false);
        lemma_line_start(d, r.0, r.2, close, level);
        lemma_push(d.indent(d.newline_and_blank(r.0, r.2, close), level), 0x7d);
    }
}

proof fn lemma_ml_members(d: Doc, o: Seq<u8>, inner: int, i: int, k: int)
    requires
        index_wf(d.t, d.ev),
        cm_crlf(d.t, d.cm),
        no_cr(o),
        0 <= i < d.ev.len(),
        d.ev[i].kind == JsonValueKind::Object,
    ensures
        no_cr(d.ml_members(o, inner, i, k)),
    decreases d.ev.len() - i, 1int, d.members(i).len() - k,
{
    let m = d.members(i);
    if !(k < 0 || k >= m.len() || !(i < m[k].1 < d.ev.len())) {
        let key = m[k].0;
        let v = m[k].1;
        lemma_key(d, i, k);
        let prev_end = if k == 0 {
            d.ev[i].start + 1
        } else {
            d.ev[m[k - 1].1].end
        };
        let items = gap_items(d.t, d.cm, prev_end, d.ev[key].start);
        lemma_gap_items(d.t, d.cm, prev_end, d.ev[key].start);
        lemma_gap(d, o, inner, prev_end, items, false, k == 0);
        let r = d.gap(o, inner, prev_end, items, false, k == 0);
        lemma_line_start(d, r.0, r.2, d.ev[key].start, inner);
        let ol = d.indent(d.newline_and_blank(r.0, r.2, d.ev[key].start), inner);
        lemma_copy(ol, d.t, d.ev[key].start, d.ev[key].end);
        let o2 = ol + d.t.subrange(d.ev[key].start, d.ev[key].end);
        let items2 = gap_items(d.t, d.cm, d.ev[key].end, d.ev[v].start);
        lemma_gap_items(d.t, d.cm, d.ev[key].end, d.ev[v].start);
        lemma_gap(d, o2, inner, d.ev[key].end, items2, false, false);
        let r2 = d.gap(o2, inner, d.ev[key].end, items2, false, false);
        let vline = crate::jsonc_layout::line_breaks(d.t, d.cm, d.ev[key].end, d.ev[v].start);
        let o3 = if vline > r2.1 {
            d.indent(d.newline_and_blank(r2.0, r2.2, d.ev[v].start), inner)
        } else if crate::jsonc_format::column(r2.0) != 0 {
            r2.0.push(0x20)
        } else {
            r2.0
        };
        lemma_line_start(d, r2.0, r2.2, d.ev[v].start, inner);
        lemma_push(r2.0, 0x20);
        lemma_value(d, o3, inner, v);
        lemma_ml_members(d, d.value(o3, inner, v), inner, i, k + 1);
    }
}

proof fn lemma_sl_array(d: Doc, o: Seq<u8>, level: int, i: int)
    requires
        index_wf(d.t, d.ev),
        cm_crlf(d.t, d.cm),
        no_cr(o),
        0 <= i < d.ev.len(),
    ensures
        no_cr(d.sl_array(o, level, i)),
    decreases d.ev.len() - i, 2int, 0int,
{
    let open = d.ev[i].start;
    let close = d.ev[i].end - 1;
    let o1 = o.push(0x5b);
    lemma_push(o, 0x5b);
    let e = d.kids(i);
    if e.len() == 0 {
        let head = gap_items(d.t, d.cm, open + 1, close);
        lemma_gap_items(d.t, d.cm, open + 1, close);
        lemma_push(o1, 0x5d);
        lemma_push(o1, 0x20);
        lemma_gap_comments_from(d, o1.push(0x20), head, 0, true);
        lemma_push(d.gap_comments_from(o1.push(0x20), head, 0, true), 0x5d);
    } else {
        let head = gap_items(d.t, d.cm, open + 1, d.ev[e[0]].start);
        lemma_gap_items(d.t, d.cm, open + 1, d.ev[e[0]].start);
        lemma_gap_comments_from(d, o1, head, 0, false);
        let o2 = d.gap_comments_from(o1, head, 0, false);
        lemma_sl_elems(d, o2, level, i, 0, head.len() > 0);
        let o3 = d.sl_elems(o2, level, i, 0, head.len() > 0);
        let last_end = d.ev[e.last()].end;
        let g = gap_items(d.t, d.cm, last_end, close);
        lemma_gap_items(d.t, d.cm, last_end, close);
        lemma_trailing(d, i, false, g);
        let tail = d.trailing(i, false, g);
        lemma_inline_from(d, o3, tail, 0);
        lemma_push(d.inline_from(o3, tail, 0), 0x5d);
    }
}

proof fn lemma_sl_elems(d: Doc, o: Seq<u8>, level: int, i: int, k: int, head: bool)
    requires
        index_wf(d.t, d.ev),
        cm_crlf(d.t, d.cm),
        no_cr(o),
    ensures
        no_cr(d.sl_elems(o, level, i, k, head)),
    decreases d.ev.len() - i, 1int, d.kids(i).len() - k,
{
    let e = d.kids(i);
    if !(k < 0 || k >= e.len() || !(i < e[k] < d.ev.len())) {
        let c = e[k];
        let o1 = if k > 0 {
            d.inline_from(o, gap_items(d.t, d.cm, d.ev[e[k - 1]].end, d.ev[c].start), 0).push(0x20)
        } else if head {
            o.push(0x20)
        } else {
            o
        };
        if k > 0 {
            let items = gap_items(d.t, d.cm, d.ev[e[k - 1]].end, d.ev[c].start);
            lemma_gap_items(d.t, d.cm, d.ev[e[k - 1]].end, d.ev[c].start);
            lemma_inline_from(d, o, items, 0);
            lemma_push(d.inline_from(o, items, 0), 0x20);
        } else {
            lemma_push(o, 0x20);
        }
        lemma_value(d, o1, level, c);
        lemma_sl_elems(d, d.value(o1, level, c), level, i, k + 1, head);
    }
}

proof fn lemma_sl_object(d: Doc, o: Seq<u8>, level: int, i: int)
    requires
        index_wf(d.t, d.ev),
        cm_crlf(d.t, d.cm),
        no_cr(o),
        0 <= i < d.ev.len(),
        d.ev[i].kind == JsonValueKind::Object,
    ensures
        no_cr(d.sl_object(o, level, i)),
    decreases d.ev.len() - i, 2int, 0int,
{
    let open = d.ev[i].start;
    let close = d.ev[i].end - 1;
    let o1 = o.push(0x7b);
    lemma_push(o, 0x7b);
    let m = d.members(i);
    if m.len() == 0 {
        let head = gap_items(d.t, d.cm, open + 1, close);
        lemma_gap_items(d.t, d.cm, open + 1, close);
        lemma_push(o1, 0x7d);
        lemma_push(o1, 0x20);
        lemma_gap_comments_from(d, o1.push(0x20), head, 0, true);
        lemma_push(d.gap_comments_from(o1.push(0x20), head, 0, true), 0x7d);
    } else {
        let head = gap_items(d.t, d.cm, open + 1, d.ev[m[0].0].start);
        lemma_gap_items(d.t, d.cm, open + 1, d.ev[m[0].0].start);
        lemma_gap_comments_from(d, o1, head, 0, false);
        let o2 = d.gap_comments_from(o1, head, 0, false);
        lemma_sl_members(d, o2, level, i, 0, head.len() > 0);
        let o3 = d.sl_members(o2, level, i, 0, head.len() > 0);
        let last_end = d.ev[m.last().1].end;
        let g = gap_items(d.t, d.cm, last_end, close);
        lemma_gap_items(d.t, d.cm, last_end, close);
        lemma_trailing(d, i, false, g);
        let tail = d.trailing(i, false, g);
        lemma_inline_from(d, o3, tail, 0);
        lemma_push(d.inline_from(o3, tail, 0), 0x7d);
    }
}

proof fn lemma_sl_members(d: Doc, o: Seq<u8>, level: int, i: int, k: int, head: bool)
    requires
        index_wf(d.t, d.ev),
        cm_crlf(d.t, d.cm),
        no_cr(o),
        0 <= i < d.ev.len(),
        d.ev[i].kind == JsonValueKind::Object,
    ensures
        no_cr(d.sl_members(o, level, i, k, head)),
    decreases d.ev.len() - i, 1int, d.members(i).len() - k,
{
    let m = d.members(i);
    if !(k < 0 || k >= m.len() || !(i < m[k].1 < d.ev.len())) {
        let key = m[k].0;
        let v = m[k].1;
        lemma_key(d, i, k);
        let o1 = if k > 0 {
            d.inline_from(o, gap_items(d.t, d.cm, d.ev[m[k - 1].1].end, d.ev[key].start), 0).push(
                0x20,
            )
        } else if head {
            o.push(0x20)
        } else {
            o
        };
        if k > 0 {
            let items = gap_items(d.t, d.cm, d.ev[m[k - 1].1].end, d.ev[key].start);
            lemma_gap_items(d.t, d.cm, d.ev[m[k - 1].1].end, d.ev[key].start);
            lemma_inline_from(d, o, items, 0);
            lemma_push(d.inline_from(o, items, 0), 0x20);
        } else {
            lemma_push(o, 0x20);
        }
        lemma_copy(o1, d.t, d.ev[key].start, d.ev[key].end);
        let o2 = o1 + d.t.subrange(d.ev[key].start, d.ev[key].end);
        let items2 = gap_items(d.t, d.cm, d.ev[key].end, d.ev[v].start);
        lemma_gap_items(d.t, d.cm, d.ev[key].end, d.ev[v].start);
        lemma_inline_from(d, o2, items2, 0);
        lemma_push(d.inline_from(o2, items2, 0), 0x20);
        let o3 = d.inline_from(o2, items2, 0).push(0x20);
        lemma_value(d, o3, level, v);
        lemma_sl_members(d, d.value(o3, level, v), level, i, k + 1, head);
    }
}

/// Carriage returns do not reach the formatted text from outside comments: whatever
/// the settings, when every carriage return inside a comment of an accepted input
/// begins a CRLF, the text that the JSONC formatter lays out holds no carriage
/// return.
pub proof fn lemma_layout_no_carriage_return(f: JsoncFormatter, t: Seq<u8>)
    requires
        parse_text(t, true) is Ok,
        t.len() <= usize::MAX,
        ({
            let cm = parse_text(t, true)->Ok_0.1;
            forall|i: int| 0 <= i < cm.len() ==> crlf_only(t, (#[trigger] cm[i]).0, cm[i].1)
        }),
    ensures
        ({
            let (ev, cm) = parse_text(t, true)->Ok_0;
            no_cr(Doc { t, cm, ev, f }.layout())
        }),
{
    let (ev, cm) = parse_text(t, true)->Ok_0;
    lemma_parse_text_wf(t, true);
    lemma_parse_text_comments(t, true);
    assert(cm_crlf(t, cm)) by {
        assert forall|k: int| 0 <= k < cm.len() implies comment_ok(t, (#[trigger] cm[k]).0, cm[k].1)
            && crlf_only(t, cm[k].0, cm[k].1) by {
            assert(comments_ok(t, cm, t.len() as int));
        }
    }
    let d = Doc { t, cm, ev, f };
    let rs = ev[0].start;
    let re = ev[0].end;
    lemma_split_from(t, cm, rs, 0);
    let first_after = split_at(cm, rs, false);
    assert(splits(cm, rs, false, first_after));
    let leading = comments_from(cm, 0, first_after, 0);
    lemma_comments_from(t, cm, 0, first_after, 0);
    assert(no_cr(Seq::<u8>::empty()));
    lemma_gap(d, seq![], 0, 0, leading, true, false);
    let r = d.gap(seq![], 0, 0, leading, true, false);
    let root_line = crate::jsonc_layout::line_breaks(t, cm, 0, rs);
    let o1 = if root_line > r.1 {
        let x = r.0.push(0x0a);
        if crate::jsonc_layout::has_blank(t, cm, r.2, rs) {
            x.push(0x0a)
        } else {
            x
        }
    } else if crate::jsonc_format::column(r.0) != 0 {
        r.0.push(0x20)
    } else {
        r.0
    };
    lemma_push(r.0, 0x0a);
    lemma_push(r.0.push(0x0a), 0x0a);
    lemma_push(r.0, 0x20);
    lemma_value(d, o1, 0, 0);
    let o2 = d.value(o1, 0, 0);
    let trailing = comments_from(cm, first_after, cm.len() as int, re);
    lemma_comments_from(t, cm, first_after, cm.len() as int, re);
    lemma_gap(d, o2, 0, re, trailing, false, false);
}

} // verus!
