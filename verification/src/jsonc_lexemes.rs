//! The JSONC formatter keeps the scalar lexemes of its input (strings, numbers,
//! literals and member names) byte for byte, in the order of the input.
use vstd::prelude::*;
use crate::grammar::{Entry, parse_text};
use crate::jsonc_format::JsoncFormatter;
use crate::jsonc_layout::{Doc, Item, split_at};
use crate::kind::JsonValueKind;
use crate::raw::{chain, children, pairs};
use crate::structure::{entry_in, index_wf, is_scalar, keyed, lemma_parse_text_wf};

verus! {

/// The indices of the scalars among the entries `[lo, hi)` of `ev`, in order.
pub open spec fn scalars(ev: Seq<Entry>, lo: int, hi: int) -> Seq<int>
    decreases hi - lo,
{
    if hi <= lo {
        seq![]
    } else {
        scalars(ev, lo, hi - 1) + (if is_scalar(ev[hi - 1]) {
            seq![hi - 1]
        } else {
            Seq::<int>::empty()
        })
    }
}

/// The length of the text of entry `j`.
pub open spec fn lexeme_len(ev: Seq<Entry>, j: int) -> int {
    ev[j].end - ev[j].start
}

/// The positions `ps` place the texts of the entries `sc` in `out`, at or after `lo`,
/// in order and without overlap.
pub open spec fn placed(
    out: Seq<u8>,
    t: Seq<u8>,
    ev: Seq<Entry>,
    sc: Seq<int>,
    ps: Seq<int>,
    lo: int,
) -> bool {
    &&& 0 <= lo
    &&& ps.len() == sc.len()
    &&& forall|j: int|
        0 <= j < ps.len() ==> lo <= #[trigger] ps[j] && 0 <= lexeme_len(ev, sc[j]) && ps[j]
            + lexeme_len(ev, sc[j]) <= out.len()
            && out.subrange(ps[j], ps[j] + lexeme_len(ev, sc[j])) == t.subrange(
            ev[sc[j]].start,
            ev[sc[j]].end,
        )
    &&& forall|j: int, k: int|
        0 <= j < k < ps.len() ==> #[trigger] ps[j] + lexeme_len(ev, sc[j]) <= #[trigger] ps[k]
}

/// `o` begins `s`.
pub open spec fn pre(o: Seq<u8>, s: Seq<u8>) -> bool {
    o.len() <= s.len() && s.subrange(0, o.len() as int) == o
}

pub proof fn lemma_pre_refl(o: Seq<u8>)
    ensures
        pre(o, o),
{
    assert(o.subrange(0, o.len() as int) =~= o);
}

pub proof fn lemma_pre_trans(a: Seq<u8>, b: Seq<u8>, c: Seq<u8>)
    requires
        pre(a, b),
        pre(b, c),
    ensures
        pre(a, c),
{
    assert(c.subrange(0, a.len() as int) =~= b.subrange(0, a.len() as int));
}

pub proof fn lemma_pre_add(o: Seq<u8>, x: Seq<u8>)
    ensures
        pre(o, o + x),
{
    assert((o + x).subrange(0, o.len() as int) =~= o);
}

pub proof fn lemma_pre_push(o: Seq<u8>, c: u8)
    ensures
        pre(o, o.push(c)),
{
    assert(o.push(c).subrange(0, o.len() as int) =~= o);
}

proof fn lemma_placed_empty(out: Seq<u8>, t: Seq<u8>, ev: Seq<Entry>, lo: int)
    requires
        0 <= lo,
    ensures
        placed(out, t, ev, seq![], seq![], lo),
{
}

/// Placements stay valid in a text that the placed-in text begins.
proof fn lemma_placed_pre(
    o: Seq<u8>,
    s: Seq<u8>,
    t: Seq<u8>,
    ev: Seq<Entry>,
    sc: Seq<int>,
    ps: Seq<int>,
    lo: int,
)
    requires
        placed(o, t, ev, sc, ps, lo),
        pre(o, s),
    ensures
        placed(s, t, ev, sc, ps, lo),
{
    assert forall|j: int| 0 <= j < ps.len() implies lo <= #[trigger] ps[j] && 0 <= lexeme_len(
        ev,
        sc[j],
    ) && ps[j] + lexeme_len(ev, sc[j]) <= s.len() && s.subrange(ps[j], ps[j] + lexeme_len(ev, sc[j])) == t.subrange(
        ev[sc[j]].start,
        ev[sc[j]].end,
    ) by {
        let a = ps[j];
        let b = ps[j] + lexeme_len(ev, sc[j]);
        assert(s.subrange(a, b) =~= o.subrange(a, b)) by {
            assert forall|q: int| 0 <= q < b - a implies s.subrange(a, b)[q] == o.subrange(a, b)[q] by {
                assert(s[a + q] == s.subrange(0, o.len() as int)[a + q]);
            }
        }
    }
}

/// Two placements, the second after the end of the text of the first, make one.
proof fn lemma_placed_concat(
    o: Seq<u8>,
    s: Seq<u8>,
    t: Seq<u8>,
    ev: Seq<Entry>,
    sc1: Seq<int>,
    ps1: Seq<int>,
    sc2: Seq<int>,
    ps2: Seq<int>,
    lo: int,
)
    requires
        placed(o, t, ev, sc1, ps1, lo),
        pre(o, s),
        placed(s, t, ev, sc2, ps2, o.len() as int),
        lo <= o.len(),
    ensures
        placed(s, t, ev, sc1 + sc2, ps1 + ps2, lo),
{
    lemma_placed_pre(o, s, t, ev, sc1, ps1, lo);
    let sc = sc1 + sc2;
    let ps = ps1 + ps2;
    let n = ps1.len();
    assert forall|j: int| 0 <= j < ps.len() implies lo <= #[trigger] ps[j] && 0 <= lexeme_len(
        ev,
        sc[j],
    ) && ps[j] + lexeme_len(ev, sc[j]) <= s.len() && s.subrange(ps[j], ps[j] + lexeme_len(ev, sc[j])) == t.subrange(
        ev[sc[j]].start,
        ev[sc[j]].end,
    ) by {
        if j < n {
            assert(ps[j] == ps1[j] && sc[j] == sc1[j]);
        } else {
            assert(ps[j] == ps2[j - n] && sc[j] == sc2[j - n]);
        }
    }
    assert forall|j: int, k: int| 0 <= j < k < ps.len() implies #[trigger] ps[j] + lexeme_len(
        ev,
        sc[j],
    ) <= #[trigger] ps[k] by {
        if k < n {
            assert(ps[j] == ps1[j] && sc[j] == sc1[j] && ps[k] == ps1[k]);
            assert(ps1[j] + lexeme_len(ev, sc1[j]) <= ps1[k]);
        } else if j >= n {
            assert(ps[j] == ps2[j - n] && sc[j] == sc2[j - n] && ps[k] == ps2[k - n]);
            assert(ps2[j - n] + lexeme_len(ev, sc2[j - n]) <= ps2[k - n]);
        } else {
            assert(ps[j] == ps1[j] && sc[j] == sc1[j] && ps[k] == ps2[k - n]);
            assert(ps1[j] + lexeme_len(ev, sc1[j]) <= o.len());
            assert(o.len() <= ps2[k - n]);
        }
    }
}

proof fn lemma_scalars_concat(ev: Seq<Entry>, a: int, b: int, c: int)
    requires
        a <= b <= c,
    ensures
        scalars(ev, a, b) + scalars(ev, b, c) == scalars(ev, a, c),
    decreases c - b,
{
    if b < c {
        lemma_scalars_concat(ev, a, b, c - 1);
        let x = if is_scalar(ev[c - 1]) {
            seq![c - 1]
        } else {
            Seq::<int>::empty()
        };
        assert(scalars(ev, b, c) == scalars(ev, b, c - 1) + x);
        assert(scalars(ev, a, b) + scalars(ev, b, c) =~= (scalars(ev, a, b) + scalars(ev, b, c - 1))
            + x);
    } else {
        assert(scalars(ev, b, c) =~= Seq::<int>::empty());
        assert(scalars(ev, a, b) + scalars(ev, b, c) =~= scalars(ev, a, b));
    }
}

pub proof fn lemma_line_start(d: Doc, o: Seq<u8>, last: int, next: int, level: int)
    ensures
        pre(o, d.newline_and_blank(o, last, next)),
        pre(o, d.indent(d.newline_and_blank(o, last, next), level)),
{
    let o1 = if crate::jsonc_format::column(o) != 0 {
        o.push(0x0a)
    } else {
        o
    };
    lemma_pre_refl(o);
    lemma_pre_push(o, 0x0a);
    lemma_pre_push(o1, 0x0a);
    lemma_pre_trans(o, o1, o1.push(0x0a));
    let n = d.newline_and_blank(o, last, next);
    lemma_pre_add(n, crate::jsonc_layout::spaces(
        crate::jsonc_layout::sat_mul(d.f.indent_size as int, level) as nat,
    ));
    lemma_pre_trans(o, n, d.indent(n, level));
}

pub proof fn lemma_block_lines(
    d: Doc,
    o: Seq<u8>,
    b: int,
    ls: int,
    first: bool,
    in_col: int,
    out_col: int,
)
    ensures
        pre(o, d.block_lines(o, b, ls, first, in_col, out_col)),
    decreases b - ls,
{
    let t = d.t;
    lemma_pre_refl(o);
    if !(ls < 0 || ls > b || b > t.len()) {
        let le = crate::jsonc_layout::next_lf(t, ls, b);
        let last = le >= b;
        let line_end = if !last && le > ls && t[le - 1] == 0x0d {
            le - 1
        } else {
            le
        };
        let lead = crate::jsonc_layout::lead_spaces(t, ls, line_end);
        let adjusted = if out_col >= in_col {
            crate::jsonc_layout::sat_add(lead, out_col - in_col)
        } else if lead >= in_col - out_col {
            lead - (in_col - out_col)
        } else {
            0
        };
        let o2 = if first {
            o + t.subrange(ls, line_end)
        } else {
            o.push(0x0a) + crate::jsonc_layout::spaces(adjusted as nat) + t.subrange(ls + lead, line_end)
        };
        if first {
            lemma_pre_add(o, t.subrange(ls, line_end));
        } else {
            lemma_pre_push(o, 0x0a);
            let sp = crate::jsonc_layout::spaces(adjusted as nat);
            lemma_pre_add(o.push(0x0a), sp);
            lemma_pre_trans(o, o.push(0x0a), o.push(0x0a) + sp);
            lemma_pre_add(o.push(0x0a) + sp, t.subrange(ls + lead, line_end));
            lemma_pre_trans(o, o.push(0x0a) + sp, o2);
        }
        if !(last || le + 1 <= ls) {
            lemma_block_lines(d, o2, b, le + 1, false, in_col, out_col);
            lemma_pre_trans(o, o2, d.block_lines(o2, b, le + 1, false, in_col, out_col));
        }
    }
}

pub proof fn lemma_comment(d: Doc, o: Seq<u8>, a: int, b: int)
    ensures
        pre(o, d.comment(o, a, b)),
{
    let t = d.t;
    if t[a + 1] == 0x2f {
        let end = if t[b - 1] == 0x0d && b < t.len() && t[b] == 0x0a {
            b - 1
        } else {
            b
        };
        lemma_pre_add(o, t.subrange(a, end));
    } else {
        lemma_block_lines(
            d,
            o,
            b,
            a,
            true,
            a - crate::error::line_start(t, a),
            crate::jsonc_format::column(o) as int,
        );
    }
}

pub proof fn lemma_gap_from(
    d: Doc,
    o: Seq<u8>,
    level: int,
    prev_end: int,
    items: Seq<Item>,
    k: int,
    at_ls: bool,
    last_line: int,
    lce: int,
    force: bool,
)
    ensures
        pre(o, d.gap_from(o, level, prev_end, items, k, at_ls, last_line, lce, force).0),
    decreases items.len() - k,
{
    lemma_pre_refl(o);
    if 0 <= k < items.len() {
        let item = items[k];
        let pos = item.spec_position() as int;
        let line = if force {
            last_line + 1
        } else {
            crate::jsonc_layout::line_breaks(d.t, d.cm, prev_end, pos)
        };
        let o1 = if line > last_line {
            d.indent(d.newline_and_blank(o, lce, pos), level)
        } else {
            o
        };
        let at1 = if line > last_line {
            true
        } else {
            at_ls
        };
        lemma_line_start(d, o, lce, pos, level);
        match item {
            Item::Comment(a, b) => {
                let oc = if !at1 {
                    o1.push(0x20)
                } else {
                    o1
                };
                lemma_pre_refl(o1);
                lemma_pre_push(o1, 0x20);
                lemma_pre_trans(o, o1, oc);
                lemma_comment(d, oc, a as int, b as int);
                let oc2 = d.comment(oc, a as int, b as int);
                lemma_pre_trans(o, oc, oc2);
                lemma_gap_from(d, oc2, level, prev_end, items, k + 1, false, line, b as int, force);
                lemma_pre_trans(
                    o,
                    oc2,
                    d.gap_from(oc2, level, prev_end, items, k + 1, false, line, b as int, force).0,
                );
            },
            Item::Comma(_) => {
                lemma_pre_push(o1, 0x2c);
                lemma_pre_trans(o, o1, o1.push(0x2c));
                lemma_gap_from(d, o1.push(0x2c), level, prev_end, items, k + 1, false, line, lce, force);
                lemma_pre_trans(
                    o,
                    o1.push(0x2c),
                    d.gap_from(o1.push(0x2c), level, prev_end, items, k + 1, false, line, lce, force).0,
                );
            },
            Item::Colon(_) => {
                lemma_pre_push(o1, 0x3a);
                lemma_pre_trans(o, o1, o1.push(0x3a));
                lemma_gap_from(d, o1.push(0x3a), level, prev_end, items, k + 1, false, line, lce, force);
                lemma_pre_trans(
                    o,
                    o1.push(0x3a),
                    d.gap_from(o1.push(0x3a), level, prev_end, items, k + 1, false, line, lce, force).0,
                );
            },
        }
    }
}

pub proof fn lemma_gap(
    d: Doc,
    o: Seq<u8>,
    level: int,
    prev_end: int,
    items: Seq<Item>,
    initial: bool,
    force: bool,
)
    ensures
        pre(o, d.gap(o, level, prev_end, items, initial, force).0),
{
    lemma_gap_from(d, o, level, prev_end, items, 0, initial, 0, prev_end, force);
}

pub proof fn lemma_inline_from(d: Doc, o: Seq<u8>, items: Seq<Item>, k: int)
    ensures
        pre(o, d.inline_from(o, items, k)),
    decreases items.len() - k,
{
    lemma_pre_refl(o);
    if 0 <= k < items.len() {
        let o1 = match items[k] {
            Item::Comment(a, b) => d.comment(o.push(0x20), a as int, b as int),
            Item::Comma(_) => o.push(0x2c),
            Item::Colon(_) => o.push(0x3a),
        };
        match items[k] {
            Item::Comment(a, b) => {
                lemma_pre_push(o, 0x20);
                lemma_comment(d, o.push(0x20), a as int, b as int);
                lemma_pre_trans(o, o.push(0x20), o1);
            },
            Item::Comma(_) => lemma_pre_push(o, 0x2c),
            Item::Colon(_) => lemma_pre_push(o, 0x3a),
        }
        lemma_inline_from(d, o1, items, k + 1);
        lemma_pre_trans(o, o1, d.inline_from(o1, items, k + 1));
    }
}

pub proof fn lemma_gap_comments_from(d: Doc, o: Seq<u8>, items: Seq<Item>, k: int, space_after: bool)
    ensures
        pre(o, d.gap_comments_from(o, items, k, space_after)),
    decreases items.len() - k,
{
    lemma_pre_refl(o);
    if 0 <= k < items.len() {
        let o1 = match items[k] {
            Item::Comment(a, b) => if space_after {
                d.comment(o, a as int, b as int).push(0x20)
            } else {
                d.comment(o.push(0x20), a as int, b as int)
            },
            _ => o,
        };
        match items[k] {
            Item::Comment(a, b) => {
                if space_after {
                    lemma_comment(d, o, a as int, b as int);
                    lemma_pre_push(d.comment(o, a as int, b as int), 0x20);
                    lemma_pre_trans(o, d.comment(o, a as int, b as int), o1);
                } else {
                    lemma_pre_push(o, 0x20);
                    lemma_comment(d, o.push(0x20), a as int, b as int);
                    lemma_pre_trans(o, o.push(0x20), o1);
                }
            },
            _ => {},
        }
        lemma_gap_comments_from(d, o1, items, k + 1, space_after);
        lemma_pre_trans(o, o1, d.gap_comments_from(o1, items, k + 1, space_after));
    }
}

proof fn lemma_placed_lower(
    out: Seq<u8>,
    t: Seq<u8>,
    ev: Seq<Entry>,
    sc: Seq<int>,
    ps: Seq<int>,
    lo: int,
    lo2: int,
)
    requires
        placed(out, t, ev, sc, ps, lo2),
        0 <= lo <= lo2,
    ensures
        placed(out, t, ev, sc, ps, lo),
{
}

/// The entries of `ev` from `j` on, block after block, tile `[j, end)` where `end`
/// closes the block of value `i`.
proof fn lemma_chain_tiles(t: Seq<u8>, ev: Seq<Entry>, i: int, j: int)
    requires
        index_wf(t, ev),
        0 <= i < ev.len(),
        i < j <= ev[i].end_index,
    ensures
        ({
            let c = chain(ev, j, ev[i].end_index);
            let end = ev[i].end_index;
            &&& (c.len() == 0 <==> j == end)
            &&& c.len() > 0 ==> c[0] == j && ev[c.last()].end_index == end
            &&& forall|k: int|
                0 <= k < c.len() ==> j <= #[trigger] c[k] < end && c[k] < ev[c[k]].end_index <= end
            &&& forall|k: int| 0 <= k < c.len() - 1 ==> #[trigger] c[k + 1] == ev[c[k]].end_index
        }),
    decreases ev[i].end_index - j,
{
    let end = ev[i].end_index;
    assert(entry_in(t, ev, i, ev.len() as int));
    if j < end {
        assert(entry_in(t, ev, j, ev.len() as int));
        assert(ev[j].end_index <= end);
        let n = ev[j].end_index;
        lemma_chain_tiles(t, ev, i, n);
        let rest = chain(ev, n, end);
        let c = chain(ev, j, end);
        assert(c == seq![j] + rest);
        assert forall|k: int| 0 <= k < c.len() implies j <= #[trigger] c[k] < end && c[k]
            < ev[c[k]].end_index <= end by {
            if k > 0 {
                assert(c[k] == rest[k - 1]);
            }
        }
        assert forall|k: int| 0 <= k < c.len() - 1 implies #[trigger] c[k + 1] == ev[c[k]].end_index by {
            assert(c[k + 1] == rest[k]);
            if k > 0 {
                assert(c[k] == rest[k - 1]);
                let k1 = k - 1;
                assert(rest[k1 + 1] == ev[rest[k1]].end_index);
            } else {
                assert(rest[0] == n);
            }
        }
        if rest.len() > 0 {
            assert(c.last() == rest.last());
        }
    }
}

/// The children of value `i` tile its block after it.
pub proof fn lemma_tiles(t: Seq<u8>, ev: Seq<Entry>, i: int)
    requires
        index_wf(t, ev),
        0 <= i < ev.len(),
    ensures
        ({
            let e = children(ev, i);
            let end = ev[i].end_index;
            &&& i < end <= ev.len()
            &&& (e.len() == 0 <==> end == i + 1)
            &&& e.len() > 0 ==> e[0] == i + 1 && ev[e.last()].end_index == end
            &&& forall|k: int|
                0 <= k < e.len() ==> i < #[trigger] e[k] < end && e[k] < ev[e[k]].end_index <= end
            &&& forall|k: int| 0 <= k < e.len() - 1 ==> #[trigger] e[k + 1] == ev[e[k]].end_index
        }),
{
    assert(entry_in(t, ev, i, ev.len() as int));
    lemma_chain_tiles(t, ev, i, i + 1);
}

proof fn lemma_keyed_even(ev: Seq<Entry>, j: int, end: int)
    requires
        keyed(ev, j, end),
    ensures
        chain(ev, j, end).len() % 2 == 0,
    decreases end - j,
{
    if 0 <= j < end {
        let n = ev[j].end_index;
        let e2 = ev[n].end_index;
        lemma_keyed_even(ev, e2, end);
        assert(chain(ev, n, end) == seq![n] + chain(ev, e2, end));
        assert(chain(ev, j, end) == seq![j] + chain(ev, n, end));
    }
}

/// Member `k` of object `i`: its name is the child `2k`, a string just before its
/// value, the child `2k + 1`.
pub proof fn lemma_member(d: Doc, i: int, k: int)
    requires
        index_wf(d.t, d.ev),
        0 <= i < d.ev.len(),
        d.ev[i].kind == JsonValueKind::Object,
    ensures
        d.kids(i).len() == 2 * d.members(i).len(),
        0 <= k < d.members(i).len() ==> {
            let e = d.kids(i);
            let m = d.members(i);
            &&& m[k].0 == e[2 * k]
            &&& m[k].1 == e[2 * k + 1]
            &&& is_scalar(d.ev[m[k].0])
            &&& m[k].1 == m[k].0 + 1
            &&& d.ev[m[k].0].end_index == m[k].0 + 1
            &&& entry_in(d.t, d.ev, m[k].0, d.ev.len() as int)
        },
{
    let ev = d.ev;
    assert(entry_in(d.t, ev, i, ev.len() as int));
    lemma_keyed_even(ev, i + 1, ev[i].end_index);
    lemma_tiles(d.t, ev, i);
    let e = d.kids(i);
    let m = d.members(i);
    if 0 <= k < m.len() {
        crate::jsonc_line_ends::lemma_keyed_pairs(ev, i + 1, ev[i].end_index);
        assert(m[k] == pairs(e)[k]);
        let key = e[2 * k];
        assert(ev[pairs(e)[k].0].kind == JsonValueKind::String);
        assert(entry_in(d.t, ev, key, ev.len() as int));
        assert(e[2 * k + 1] == ev[e[2 * k]].end_index);
    }
}

/// Where the elements of array `i` from the `k`-th on begin.
spec fn elems_from(d: Doc, i: int, k: int) -> int {
    if k < d.kids(i).len() {
        d.kids(i)[k]
    } else {
        d.ev[i].end_index
    }
}

/// Where the members of object `i` from the `k`-th on begin.
spec fn members_from(d: Doc, i: int, k: int) -> int {
    if k < d.members(i).len() {
        d.members(i)[k].0
    } else {
        d.ev[i].end_index
    }
}

proof fn lemma_container_scalars(d: Doc, i: int)
    requires
        index_wf(d.t, d.ev),
        0 <= i < d.ev.len(),
        !is_scalar(d.ev[i]),
    ensures
        scalars(d.ev, i, d.ev[i].end_index) == scalars(d.ev, i + 1, d.ev[i].end_index),
{
    lemma_tiles(d.t, d.ev, i);
    lemma_scalars_concat(d.ev, i, i + 1, d.ev[i].end_index);
    assert(scalars(d.ev, i, i) =~= Seq::<int>::empty());
    assert(scalars(d.ev, i, i + 1) =~= Seq::<int>::empty());
}

proof fn lemma_value(d: Doc, o: Seq<u8>, level: int, i: int) -> (ps: Seq<int>)
    requires
        index_wf(d.t, d.ev),
        0 <= i < d.ev.len(),
    ensures
        pre(o, d.value(o, level, i)),
        placed(d.value(o, level, i), d.t, d.ev, scalars(d.ev, i, d.ev[i].end_index), ps, o.len() as int),
    decreases d.ev.len() - i, 3int, 0int,
{
    assert(entry_in(d.t, d.ev, i, d.ev.len() as int));
    if d.ev[i].kind == JsonValueKind::Array {
        lemma_container_scalars(d, i);
        if d.multiline(i) {
            lemma_ml_array(d, o, level, i)
        } else {
            lemma_sl_array(d, o, level, i)
        }
    } else if d.ev[i].kind == JsonValueKind::Object {
        lemma_container_scalars(d, i);
        if d.multiline(i) {
            lemma_ml_object(d, o, level, i)
        } else {
            lemma_sl_object(d, o, level, i)
        }
    } else {
        lemma_key_text(d, o, i)
    }
}

/// `o` followed by the text of scalar `i`.
proof fn lemma_key_text(d: Doc, o: Seq<u8>, i: int) -> (ps: Seq<int>)
    requires
        index_wf(d.t, d.ev),
        0 <= i < d.ev.len(),
        is_scalar(d.ev[i]),
    ensures
        pre(o, o + d.t.subrange(d.ev[i].start, d.ev[i].end)),
        placed(o + d.t.subrange(d.ev[i].start, d.ev[i].end), d.t, d.ev, seq![i], ps, o.len() as int),
        scalars(d.ev, i, d.ev[i].end_index) == seq![i],
        d.ev[i].end_index == i + 1,
{
    assert(entry_in(d.t, d.ev, i, d.ev.len() as int));
    let e = d.ev[i];
    let x = d.t.subrange(e.start, e.end);
    lemma_pre_add(o, x);
    assert(scalars(d.ev, i, i) =~= Seq::<int>::empty());
    assert(scalars(d.ev, i, i + 1) =~= seq![i]);
    let ps = seq![o.len() as int];
    assert((o + x).subrange(o.len() as int, (o.len() + x.len()) as int) =~= x);
    ps
}

pub proof fn lemma_close(d: Doc, o: Seq<u8>, inner: int, prev_end: int, tail: Seq<Item>, force: bool, close: int, level: int, c: u8)
    ensures
        pre(o, d.indent(d.newline_and_blank(d.gap(o, inner, prev_end, tail, false, force).0, d.gap(o, inner, prev_end, tail, false, force).2, close), level).push(c)),
{
    let r = d.gap(o, inner, prev_end, tail, false, force);
    lemma_gap(d, o, inner, prev_end, tail, false, force);
    lemma_line_start(d, r.0, r.2, close, level);
    let x = d.indent(d.newline_and_blank(r.0, r.2, close), level);
    lemma_pre_trans(o, r.0, x);
    lemma_pre_push(x, c);
    lemma_pre_trans(o, x, x.push(c));
}

proof fn lemma_ml_array(d: Doc, o: Seq<u8>, level: int, i: int) -> (ps: Seq<int>)
    requires
        index_wf(d.t, d.ev),
        0 <= i < d.ev.len(),
    ensures
        pre(o, d.ml_array(o, level, i)),
        placed(d.ml_array(o, level, i), d.t, d.ev, scalars(d.ev, i + 1, d.ev[i].end_index), ps, o.len() as int),
    decreases d.ev.len() - i, 2int, 0int,
{
    lemma_tiles(d.t, d.ev, i);
    let open = d.ev[i].start;
    let close = d.ev[i].end - 1;
    let inner = crate::jsonc_layout::sat_add(level, 1);
    let o1 = o.push(0x5b);
    lemma_pre_push(o, 0x5b);
    let e = d.kids(i);
    let out = d.ml_array(o, level, i);
    if e.len() == 0 {
        let items = crate::jsonc_layout::gap_items(d.t, d.cm, open + 1, close);
        lemma_close(d, o1, inner, open + 1, items, true, close, level, 0x5d);
        lemma_pre_trans(o, o1, out);
        assert(scalars(d.ev, i + 1, i + 1) =~= Seq::<int>::empty());
        lemma_placed_empty(out, d.t, d.ev, o.len() as int);
        seq![]
    } else {
        let ps = lemma_ml_elems(d, o1, inner, i, 0);
        let o2 = d.ml_elems(o1, inner, i, 0);
        let last_end = d.ev[e.last()].end;
        let tail = d.trailing(i, true, crate::jsonc_layout::gap_items(d.t, d.cm, last_end, close));
        lemma_close(d, o2, inner, last_end, tail, false, close, level, 0x5d);
        lemma_pre_trans(o, o1, o2);
        lemma_pre_trans(o, o2, out);
        lemma_placed_pre(o2, out, d.t, d.ev, scalars(d.ev, i + 1, d.ev[i].end_index), ps, o1.len() as int);
        lemma_placed_lower(out, d.t, d.ev, scalars(d.ev, i + 1, d.ev[i].end_index), ps, o.len() as int, o1.len() as int);
        ps
    }
}

proof fn lemma_ml_elems(d: Doc, o: Seq<u8>, inner: int, i: int, k: int) -> (ps: Seq<int>)
    requires
        index_wf(d.t, d.ev),
        0 <= i < d.ev.len(),
        0 <= k <= d.kids(i).len(),
    ensures
        pre(o, d.ml_elems(o, inner, i, k)),
        placed(d.ml_elems(o, inner, i, k), d.t, d.ev, scalars(d.ev, elems_from(d, i, k), d.ev[i].end_index), ps, o.len() as int),
    decreases d.ev.len() - i, 1int, d.kids(i).len() - k,
{
    lemma_tiles(d.t, d.ev, i);
    let e = d.kids(i);
    let end = d.ev[i].end_index;
    if k == e.len() {
        lemma_pre_refl(o);
        assert(scalars(d.ev, end, end) =~= Seq::<int>::empty());
        lemma_placed_empty(o, d.t, d.ev, o.len() as int);
        seq![]
    } else {
        let c = e[k];
        let prev_end = if k == 0 {
            d.ev[i].start + 1
        } else {
            d.ev[e[k - 1]].end
        };
        let items = crate::jsonc_layout::gap_items(d.t, d.cm, prev_end, d.ev[c].start);
        lemma_gap(d, o, inner, prev_end, items, false, k == 0);
        let r = d.gap(o, inner, prev_end, items, false, k == 0);
        lemma_line_start(d, r.0, r.2, d.ev[c].start, inner);
        let o2 = d.indent(d.newline_and_blank(r.0, r.2, d.ev[c].start), inner);
        lemma_pre_trans(o, r.0, o2);
        let ps1 = lemma_value(d, o2, inner, c);
        let o3 = d.value(o2, inner, c);
        let ps2 = lemma_ml_elems(d, o3, inner, i, k + 1);
        let out = d.ml_elems(o3, inner, i, k + 1);
        let ce = d.ev[c].end_index;
        if k + 1 < e.len() {
            assert(e[k + 1] == ce);
        }
        assert(elems_from(d, i, k + 1) == ce);
        lemma_placed_concat(o3, out, d.t, d.ev, scalars(d.ev, c, ce), ps1, scalars(d.ev, ce, end), ps2, o2.len() as int);
        lemma_scalars_concat(d.ev, c, ce, end);
        lemma_pre_trans(o, o2, o3);
        lemma_pre_trans(o, o3, out);
        lemma_placed_lower(out, d.t, d.ev, scalars(d.ev, c, end), ps1 + ps2, o.len() as int, o2.len() as int);
        ps1 + ps2
    }
}

proof fn lemma_ml_object(d: Doc, o: Seq<u8>, level: int, i: int) -> (ps: Seq<int>)
    requires
        index_wf(d.t, d.ev),
        0 <= i < d.ev.len(),
        d.ev[i].kind == JsonValueKind::Object,
    ensures
        pre(o, d.ml_object(o, level, i)),
        placed(d.ml_object(o, level, i), d.t, d.ev, scalars(d.ev, i + 1, d.ev[i].end_index), ps, o.len() as int),
    decreases d.ev.len() - i, 2int, 0int,
{
    lemma_tiles(d.t, d.ev, i);
    lemma_member(d, i, 0);
    let open = d.ev[i].start;
    let close = d.ev[i].end - 1;
    let inner = crate::jsonc_layout::sat_add(level, 1);
    let o1 = o.push(0x7b);
    lemma_pre_push(o, 0x7b);
    let m = d.members(i);
    let out = d.ml_object(o, level, i);
    if m.len() == 0 {
        let items = crate::jsonc_layout::gap_items(d.t, d.cm, open + 1, close);
        lemma_close(d, o1, inner, open + 1, items, true, close, level, 0x7d);
        lemma_pre_trans(o, o1, out);
        assert(scalars(d.ev, i + 1, i + 1) =~= Seq::<int>::empty());
        lemma_placed_empty(out, d.t, d.ev, o.len() as int);
        seq![]
    } else {
        let ps = lemma_ml_members(d, o1, inner, i, 0);
        let o2 = d.ml_members(o1, inner, i, 0);
        assert(members_from(d, i, 0) == i + 1);
        let last_end = d.ev[m.last().1].end;
        let tail = d.trailing(i, true, crate::jsonc_layout::gap_items(d.t, d.cm, last_end, close));
        lemma_close(d, o2, inner, last_end, tail, false, close, level, 0x7d);
        lemma_pre_trans(o, o1, o2);
        lemma_pre_trans(o, o2, out);
        lemma_placed_pre(o2, out, d.t, d.ev, scalars(d.ev, i + 1, d.ev[i].end_index), ps, o1.len() as int);
        lemma_placed_lower(out, d.t, d.ev, scalars(d.ev, i + 1, d.ev[i].end_index), ps, o.len() as int, o1.len() as int);
        ps
    }
}

/// The scalars of member `k` of object `i` and of those after it: its name, then those
/// of its value, then those of the members after it.
proof fn lemma_member_scalars(d: Doc, i: int, k: int)
    requires
        index_wf(d.t, d.ev),
        0 <= i < d.ev.len(),
        d.ev[i].kind == JsonValueKind::Object,
        0 <= k < d.members(i).len(),
    ensures
        ({
            let m = d.members(i);
            let key = m[k].0;
            let v = m[k].1;
            let ve = d.ev[v].end_index;
            &&& members_from(d, i, k) == key
            &&& members_from(d, i, k + 1) == ve
            &&& i < key < v < ve <= d.ev[i].end_index
            &&& v < d.ev.len()
            &&& is_scalar(d.ev[key])
            &&& seq![key] + (scalars(d.ev, v, ve) + scalars(d.ev, ve, d.ev[i].end_index)) == scalars(
                d.ev,
                key,
                d.ev[i].end_index,
            )
        }),
{
    lemma_tiles(d.t, d.ev, i);
    lemma_member(d, i, k);
    lemma_member(d, i, k + 1);
    let e = d.kids(i);
    let m = d.members(i);
    let key = m[k].0;
    let v = m[k].1;
    let ve = d.ev[v].end_index;
    let end = d.ev[i].end_index;
    assert(e[2 * k + 1] == v);
    if k + 1 < m.len() {
        let j = 2 * k + 1;
        assert(e[j + 1] == d.ev[e[j]].end_index);
        assert(e[2 * k + 2] == ve);
    } else {
        assert(2 * k + 1 == e.len() - 1);
    }
    lemma_scalars_concat(d.ev, v, ve, end);
    lemma_scalars_concat(d.ev, key, v, end);
    assert(scalars(d.ev, key, key) =~= Seq::<int>::empty());
    assert(scalars(d.ev, key, key + 1) =~= seq![key]);
}

proof fn lemma_ml_members(d: Doc, o: Seq<u8>, inner: int, i: int, k: int) -> (ps: Seq<int>)
    requires
        index_wf(d.t, d.ev),
        0 <= i < d.ev.len(),
        d.ev[i].kind == JsonValueKind::Object,
        0 <= k <= d.members(i).len(),
    ensures
        pre(o, d.ml_members(o, inner, i, k)),
        placed(d.ml_members(o, inner, i, k), d.t, d.ev, scalars(d.ev, members_from(d, i, k), d.ev[i].end_index), ps, o.len() as int),
    decreases d.ev.len() - i, 1int, d.members(i).len() - k,
{
    let m = d.members(i);
    let end = d.ev[i].end_index;
    if k == m.len() {
        lemma_pre_refl(o);
        assert(scalars(d.ev, end, end) =~= Seq::<int>::empty());
        lemma_placed_empty(o, d.t, d.ev, o.len() as int);
        seq![]
    } else {
        lemma_member_scalars(d, i, k);
        let key = m[k].0;
        let v = m[k].1;
        let ve = d.ev[v].end_index;
        let prev_end = if k == 0 {
            d.ev[i].start + 1
        } else {
            d.ev[m[k - 1].1].end
        };
        let items = crate::jsonc_layout::gap_items(d.t, d.cm, prev_end, d.ev[key].start);
        lemma_gap(d, o, inner, prev_end, items, false, k == 0);
        let r = d.gap(o, inner, prev_end, items, false, k == 0);
        lemma_line_start(d, r.0, r.2, d.ev[key].start, inner);
        let ol = d.indent(d.newline_and_blank(r.0, r.2, d.ev[key].start), inner);
        lemma_pre_trans(o, r.0, ol);
        let psk = lemma_key_text(d, ol, key);
        let o2 = ol + d.t.subrange(d.ev[key].start, d.ev[key].end);
        lemma_pre_trans(o, ol, o2);
        let items2 = crate::jsonc_layout::gap_items(d.t, d.cm, d.ev[key].end, d.ev[v].start);
        lemma_gap(d, o2, inner, d.ev[key].end, items2, false, false);
        let r2 = d.gap(o2, inner, d.ev[key].end, items2, false, false);
        let vline = crate::jsonc_layout::line_breaks(d.t, d.cm, d.ev[key].end, d.ev[v].start);
        let o3 = if vline > r2.1 {
            d.indent(d.newline_and_blank(r2.0, r2.2, d.ev[v].start), inner)
        } else if crate::jsonc_format::column(r2.0) != 0 {
            r2.0.push(0x20)
        } else {
            r2.0
        };
        lemma_line_start(d, r2.0, r2.2, d.ev[v].start, inner);
        lemma_pre_push(r2.0, 0x20);
        lemma_pre_refl(r2.0);
        lemma_pre_trans(o2, r2.0, o3);
        let psv = lemma_value(d, o3, inner, v);
        let o4 = d.value(o3, inner, v);
        let psr = lemma_ml_members(d, o4, inner, i, k + 1);
        let out = d.ml_members(o4, inner, i, k + 1);
        lemma_placed_concat(o4, out, d.t, d.ev, scalars(d.ev, v, ve), psv, scalars(d.ev, ve, end), psr, o3.len() as int);
        lemma_pre_trans(o2, o3, o4);
        lemma_pre_trans(o2, o4, out);
        lemma_pre_trans(o3, o4, out);
        lemma_placed_pre(o2, o3, d.t, d.ev, seq![key], psk, ol.len() as int);
        lemma_placed_concat(o3, out, d.t, d.ev, seq![key], psk, scalars(d.ev, v, ve) + scalars(d.ev, ve, end), psv + psr, ol.len() as int);
        lemma_pre_trans(o, o2, out);
        lemma_placed_lower(out, d.t, d.ev, scalars(d.ev, key, end), psk + (psv + psr), o.len() as int, ol.len() as int);
        psk + (psv + psr)
    }
}

proof fn lemma_sl_array(d: Doc, o: Seq<u8>, level: int, i: int) -> (ps: Seq<int>)
    requires
        index_wf(d.t, d.ev),
        0 <= i < d.ev.len(),
    ensures
        pre(o, d.sl_array(o, level, i)),
        placed(d.sl_array(o, level, i), d.t, d.ev, scalars(d.ev, i + 1, d.ev[i].end_index), ps, o.len() as int),
    decreases d.ev.len() - i, 2int, 0int,
{
    lemma_tiles(d.t, d.ev, i);
    let open = d.ev[i].start;
    let close = d.ev[i].end - 1;
    let o1 = o.push(0x5b);
    lemma_pre_push(o, 0x5b);
    let e = d.kids(i);
    let out = d.sl_array(o, level, i);
    if e.len() == 0 {
        let head = crate::jsonc_layout::gap_items(d.t, d.cm, open + 1, close);
        lemma_pre_push(o1, 0x5d);
        lemma_pre_trans(o, o1, o1.push(0x5d));
        lemma_pre_push(o1, 0x20);
        lemma_gap_comments_from(d, o1.push(0x20), head, 0, true);
        let g = d.gap_comments_from(o1.push(0x20), head, 0, true);
        lemma_pre_push(g, 0x5d);
        lemma_pre_trans(o1, o1.push(0x20), g);
        lemma_pre_trans(o1, g, g.push(0x5d));
        lemma_pre_trans(o, o1, g.push(0x5d));
        assert(scalars(d.ev, i + 1, i + 1) =~= Seq::<int>::empty());
        lemma_placed_empty(out, d.t, d.ev, o.len() as int);
        seq![]
    } else {
        let head = crate::jsonc_layout::gap_items(d.t, d.cm, open + 1, d.ev[e[0]].start);
        lemma_gap_comments_from(d, o1, head, 0, false);
        let o2 = d.gap_comments_from(o1, head, 0, false);
        let ps = lemma_sl_elems(d, o2, level, i, 0, head.len() > 0);
        let o3 = d.sl_elems(o2, level, i, 0, head.len() > 0);
        let last_end = d.ev[e.last()].end;
        let tail = d.trailing(i, false, crate::jsonc_layout::gap_items(d.t, d.cm, last_end, close));
        lemma_inline_from(d, o3, tail, 0);
        let o4 = d.inline_from(o3, tail, 0);
        lemma_pre_push(o4, 0x5d);
        lemma_pre_trans(o3, o4, out);
        lemma_pre_trans(o, o1, o2);
        lemma_pre_trans(o, o2, o3);
        lemma_pre_trans(o, o3, out);
        lemma_placed_pre(o3, out, d.t, d.ev, scalars(d.ev, i + 1, d.ev[i].end_index), ps, o2.len() as int);
        lemma_placed_lower(out, d.t, d.ev, scalars(d.ev, i + 1, d.ev[i].end_index), ps, o.len() as int, o2.len() as int);
        ps
    }
}

proof fn lemma_sl_elems(d: Doc, o: Seq<u8>, level: int, i: int, k: int, head: bool) -> (ps: Seq<int>)
    requires
        index_wf(d.t, d.ev),
        0 <= i < d.ev.len(),
        0 <= k <= d.kids(i).len(),
    ensures
        pre(o, d.sl_elems(o, level, i, k, head)),
        placed(d.sl_elems(o, level, i, k, head), d.t, d.ev, scalars(d.ev, elems_from(d, i, k), d.ev[i].end_index), ps, o.len() as int),
    decreases d.ev.len() - i, 1int, d.kids(i).len() - k,
{
    lemma_tiles(d.t, d.ev, i);
    let e = d.kids(i);
    let end = d.ev[i].end_index;
    if k == e.len() {
        lemma_pre_refl(o);
        assert(scalars(d.ev, end, end) =~= Seq::<int>::empty());
        lemma_placed_empty(o, d.t, d.ev, o.len() as int);
        seq![]
    } else {
        let c = e[k];
        let o1 = if k > 0 {
            d.inline_from(o, crate::jsonc_layout::gap_items(d.t, d.cm, d.ev[e[k - 1]].end, d.ev[c].start), 0).push(0x20)
        } else if head {
            o.push(0x20)
        } else {
            o
        };
        lemma_pre_refl(o);
        lemma_pre_push(o, 0x20);
        if k > 0 {
            let items = crate::jsonc_layout::gap_items(d.t, d.cm, d.ev[e[k - 1]].end, d.ev[c].start);
            lemma_inline_from(d, o, items, 0);
            lemma_pre_push(d.inline_from(o, items, 0), 0x20);
            lemma_pre_trans(o, d.inline_from(o, items, 0), o1);
        }
        let ps1 = lemma_value(d, o1, level, c);
        let o3 = d.value(o1, level, c);
        let ps2 = lemma_sl_elems(d, o3, level, i, k + 1, head);
        let out = d.sl_elems(o3, level, i, k + 1, head);
        let ce = d.ev[c].end_index;
        if k + 1 < e.len() {
            assert(e[k + 1] == ce);
        }
        assert(elems_from(d, i, k + 1) == ce);
        lemma_placed_concat(o3, out, d.t, d.ev, scalars(d.ev, c, ce), ps1, scalars(d.ev, ce, end), ps2, o1.len() as int);
        lemma_scalars_concat(d.ev, c, ce, end);
        lemma_pre_trans(o, o1, o3);
        lemma_pre_trans(o, o3, out);
        lemma_placed_lower(out, d.t, d.ev, scalars(d.ev, c, end), ps1 + ps2, o.len() as int, o1.len() as int);
        ps1 + ps2
    }
}

proof fn lemma_sl_object(d: Doc, o: Seq<u8>, level: int, i: int) -> (ps: Seq<int>)
    requires
        index_wf(d.t, d.ev),
        0 <= i < d.ev.len(),
        d.ev[i].kind == JsonValueKind::Object,
    ensures
        pre(o, d.sl_object(o, level, i)),
        placed(d.sl_object(o, level, i), d.t, d.ev, scalars(d.ev, i + 1, d.ev[i].end_index), ps, o.len() as int),
    decreases d.ev.len() - i, 2int, 0int,
{
    lemma_tiles(d.t, d.ev, i);
    lemma_member(d, i, 0);
    let open = d.ev[i].start;
    let close = d.ev[i].end - 1;
    let o1 = o.push(0x7b);
    lemma_pre_push(o, 0x7b);
    let m = d.members(i);
    let out = d.sl_object(o, level, i);
    if m.len() == 0 {
        let head = crate::jsonc_layout::gap_items(d.t, d.cm, open + 1, close);
        lemma_pre_push(o1, 0x7d);
        lemma_pre_trans(o, o1, o1.push(0x7d));
        lemma_pre_push(o1, 0x20);
        lemma_gap_comments_from(d, o1.push(0x20), head, 0, true);
        let g = d.gap_comments_from(o1.push(0x20), head, 0, true);
        lemma_pre_push(g, 0x7d);
        lemma_pre_trans(o1, o1.push(0x20), g);
        lemma_pre_trans(o1, g, g.push(0x7d));
        lemma_pre_trans(o, o1, g.push(0x7d));
        assert(scalars(d.ev, i + 1, i + 1) =~= Seq::<int>::empty());
        lemma_placed_empty(out, d.t, d.ev, o.len() as int);
        seq![]
    } else {
        let head = crate::jsonc_layout::gap_items(d.t, d.cm, open + 1, d.ev[m[0].0].start);
        lemma_gap_comments_from(d, o1, head, 0, false);
        let o2 = d.gap_comments_from(o1, head, 0, false);
        let ps = lemma_sl_members(d, o2, level, i, 0, head.len() > 0);
        let o3 = d.sl_members(o2, level, i, 0, head.len() > 0);
        assert(members_from(d, i, 0) == i + 1);
        let last_end = d.ev[m.last().1].end;
        let tail = d.trailing(i, false, crate::jsonc_layout::gap_items(d.t, d.cm, last_end, close));
        lemma_inline_from(d, o3, tail, 0);
        let o4 = d.inline_from(o3, tail, 0);
        lemma_pre_push(o4, 0x7d);
        lemma_pre_trans(o3, o4, out);
        lemma_pre_trans(o, o1, o2);
        lemma_pre_trans(o, o2, o3);
        lemma_pre_trans(o, o3, out);
        lemma_placed_pre(o3, out, d.t, d.ev, scalars(d.ev, i + 1, d.ev[i].end_index), ps, o2.len() as int);
        lemma_placed_lower(out, d.t, d.ev, scalars(d.ev, i + 1, d.ev[i].end_index), ps, o.len() as int, o2.len() as int);
        ps
    }
}

proof fn lemma_sl_members(d: Doc, o: Seq<u8>, level: int, i: int, k: int, head: bool) -> (ps: Seq<int>)
    requires
        index_wf(d.t, d.ev),
        0 <= i < d.ev.len(),
        d.ev[i].kind == JsonValueKind::Object,
        0 <= k <= d.members(i).len(),
    ensures
        pre(o, d.sl_members(o, level, i, k, head)),
        placed(d.sl_members(o, level, i, k, head), d.t, d.ev, scalars(d.ev, members_from(d, i, k), d.ev[i].end_index), ps, o.len() as int),
    decreases d.ev.len() - i, 1int, d.members(i).len() - k,
{
    let m = d.members(i);
    let end = d.ev[i].end_index;
    if k == m.len() {
        lemma_pre_refl(o);
        assert(scalars(d.ev, end, end) =~= Seq::<int>::empty());
        lemma_placed_empty(o, d.t, d.ev, o.len() as int);
        seq![]
    } else {
        lemma_member_scalars(d, i, k);
        let key = m[k].0;
        let v = m[k].1;
        let ve = d.ev[v].end_index;
        let o1 = if k > 0 {
            d.inline_from(o, crate::jsonc_layout::gap_items(d.t, d.cm, d.ev[m[k - 1].1].end, d.ev[key].start), 0).push(
                0x20,
            )
        } else if head {
            o.push(0x20)
        } else {
            o
        };
        lemma_pre_refl(o);
        lemma_pre_push(o, 0x20);
        if k > 0 {
            let items = crate::jsonc_layout::gap_items(d.t, d.cm, d.ev[m[k - 1].1].end, d.ev[key].start);
            lemma_inline_from(d, o, items, 0);
            lemma_pre_push(d.inline_from(o, items, 0), 0x20);
            lemma_pre_trans(o, d.inline_from(o, items, 0), o1);
        }
        let psk = lemma_key_text(d, o1, key);
        let o2 = o1 + d.t.subrange(d.ev[key].start, d.ev[key].end);
        lemma_pre_trans(o, o1, o2);
        let items2 = crate::jsonc_layout::gap_items(d.t, d.cm, d.ev[key].end, d.ev[v].start);
        lemma_inline_from(d, o2, items2, 0);
        lemma_pre_push(d.inline_from(o2, items2, 0), 0x20);
        let o3 = d.inline_from(o2, items2, 0).push(0x20);
        lemma_pre_trans(o2, d.inline_from(o2, items2, 0), o3);
        let psv = lemma_value(d, o3, level, v);
        let o4 = d.value(o3, level, v);
        let psr = lemma_sl_members(d, o4, level, i, k + 1, head);
        let out = d.sl_members(o4, level, i, k + 1, head);
        lemma_placed_concat(o4, out, d.t, d.ev, scalars(d.ev, v, ve), psv, scalars(d.ev, ve, end), psr, o3.len() as int);
        lemma_pre_trans(o2, o3, o4);
        lemma_pre_trans(o2, o4, out);
        lemma_pre_trans(o3, o4, out);
        lemma_placed_pre(o2, o3, d.t, d.ev, seq![key], psk, o1.len() as int);
        lemma_placed_concat(o3, out, d.t, d.ev, seq![key], psk, scalars(d.ev, v, ve) + scalars(d.ev, ve, end), psv + psr, o1.len() as int);
        lemma_pre_trans(o, o2, out);
        lemma_placed_lower(out, d.t, d.ev, scalars(d.ev, key, end), psk + (psv + psr), o.len() as int, o1.len() as int);
        psk + (psv + psr)
    }
}

/// The JSONC formatter keeps every scalar lexeme: whatever the settings, the text it
/// lays out for an accepted input holds the text of each string, number and literal
/// value and of each member name, byte for byte, in the order of the input and without
/// overlap.
pub proof fn lemma_layout_keeps_lexemes(f: JsoncFormatter, t: Seq<u8>)
    requires
        parse_text(t, true) is Ok,
        t.len() <= usize::MAX,
    ensures
        ({
            let (ev, cm) = parse_text(t, true)->Ok_0;
            exists|ps: Seq<int>|
                placed(Doc { t, cm, ev, f }.layout(), t, ev, scalars(ev, 0, ev.len() as int), ps, 0)
        }),
{
    let (ev, cm) = parse_text(t, true)->Ok_0;
    lemma_parse_text_wf(t, true);
    let d = Doc { t, cm, ev, f };
    let rs = ev[0].start;
    let re = ev[0].end;
    let first_after = split_at(cm, rs, false);
    let leading = crate::jsonc_layout::comments_from(cm, 0, first_after, 0);
    lemma_gap(d, seq![], 0, 0, leading, true, false);
    let r = d.gap(seq![], 0, 0, leading, true, false);
    let root_line = crate::jsonc_layout::line_breaks(t, cm, 0, rs);
    let o1 = if root_line > r.1 {
        let x = r.0.push(0x0a);
        if crate::jsonc_layout::has_blank(t, cm, r.2, rs) {
            x.push(0x0a)
        } else {
            x
        }
    } else if crate::jsonc_format::column(r.0) != 0 {
        r.0.push(0x20)
    } else {
        r.0
    };
    let ps = lemma_value(d, o1, 0, 0);
    let o2 = d.value(o1, 0, 0);
    let trailing = crate::jsonc_layout::comments_from(cm, first_after, cm.len() as int, re);
    lemma_gap(d, o2, 0, re, trailing, false, false);
    let out = d.gap(o2, 0, re, trailing, false, false).0;
    assert(out == d.layout());
    lemma_placed_pre(o2, out, t, ev, scalars(ev, 0, ev.len() as int), ps, o1.len() as int);
    lemma_placed_lower(out, t, ev, scalars(ev, 0, ev.len() as int), ps, 0, o1.len() as int);
}

} // verus!
