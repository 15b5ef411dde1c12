//! The JSONC formatter keeps the comments of its input: each one, in order, begins
//! with its first line as it stood in the input, after a space or at a line start, and
//! a line comment is followed by a line feed or ends the text.
use vstd::prelude::*;
use crate::comment_spans::{apart, lemma_parse_text_apart};
use crate::comments::{comment_ok, comments_ok, lemma_parse_text_comments};
use crate::grammar::parse_text;
use crate::jsonc_format::JsoncFormatter;
use crate::jsonc_layout::{
    Doc, Item, comment_before, comment_starts, comments_from, drop_commas, gap_items,
    lemma_next_lf, lemma_split_at, lemma_split_from, next_lf, scan_from, split_at, splits,
};
use crate::jsonc_lexemes::{
    lemma_block_lines, lemma_line_start, lemma_pre_add, lemma_pre_push, lemma_pre_refl,
    lemma_pre_trans, pre,
};
use crate::kind::JsonValueKind;
use crate::spans::{lemma_parse_text_spans, span_rel, spans_in};
use crate::structure::{entry_in, index_wf, is_scalar, lemma_parse_text_wf};

verus! {

/// Where the first line of the comment `[a, b)` of `t` ends: a line comment's, less the
/// carriage return of a CRLF that ends it; a block comment's at its first line feed,
/// less a carriage return before it.
pub open spec fn first_line_end(t: Seq<u8>, a: int, b: int) -> int {
    if t[a + 1] == 0x2f {
        if t[b - 1] == 0x0d && b < t.len() && t[b] == 0x0a {
            b - 1
        } else {
            b
        }
    } else {
        let le = next_lf(t, a, b);
        if le < b && le > a && t[le - 1] == 0x0d {
            le - 1
        } else {
            le
        }
    }
}

/// The first lines of the comments `cs` of `t`, as byte ranges.
pub open spec fn first_lines(t: Seq<u8>, cs: Seq<(int, int)>) -> Seq<(int, int)> {
    cs.map_values(|c: (int, int)| (c.0, first_line_end(t, c.0, c.1)))
}

/// `o` is empty or ends with a space or a line feed: what follows it is set off.
pub open spec fn set_off(o: Seq<u8>) -> bool {
    o.len() == 0 || o.last() == 0x20 || o.last() == 0x0a
}

/// The positions `ps` place the byte ranges `rs` of `t` in `out`, at or after `lo`, in
/// order and without overlap, each at the start of `out` or after a space or a line
/// feed.
pub open spec fn ranges_at(
    out: Seq<u8>,
    t: Seq<u8>,
    rs: Seq<(int, int)>,
    ps: Seq<int>,
    lo: int,
) -> bool {
    &&& 0 <= lo
    &&& ps.len() == rs.len()
    &&& forall|j: int|
        0 <= j < ps.len() ==> lo <= #[trigger] ps[j] && 0 <= rs[j].0 <= rs[j].1 <= t.len() && ps[j]
            + (rs[j].1 - rs[j].0) <= out.len() && out.subrange(ps[j], ps[j] + (rs[j].1 - rs[j].0))
            == t.subrange(rs[j].0, rs[j].1)
    &&& forall|j: int, k: int|
        0 <= j < k < ps.len() ==> #[trigger] ps[j] + (rs[j].1 - rs[j].0) <= #[trigger] ps[k]
    &&& forall|j: int|
        0 <= j < ps.len() ==> #[trigger] ps[j] == 0 || out[ps[j] - 1] == 0x20 || out[ps[j] - 1]
            == 0x0a
    &&& forall|j: int|
        #![trigger rs[j]]
        0 <= j < ps.len() && t[rs[j].0 + 1] == 0x2f ==> rs[j].0 < rs[j].1 && t[rs[j].1 - 1] != 0x0a
    &&& forall|j: int|
        #![trigger ps[j]]
        0 <= j < ps.len() && t[rs[j].0 + 1] == 0x2f ==> ps[j] + (rs[j].1 - rs[j].0) == out.len()
            || out[ps[j] + (rs[j].1 - rs[j].0)] == 0x0a
}

/// A line comment placed by `ps` ends `out`: what follows must start a new line.
pub open spec fn dangles(out: Seq<u8>, t: Seq<u8>, rs: Seq<(int, int)>, ps: Seq<int>) -> bool {
    exists|j: int|
        0 <= j < ps.len() && t[rs[j].0 + 1] == 0x2f && #[trigger] ps[j] + (rs[j].1 - rs[j].0)
            == out.len()
}

/// In `s`, which `o` begins, nothing follows `o`, or a line feed does.
pub open spec fn closes(o: Seq<u8>, s: Seq<u8>) -> bool {
    s.len() == o.len() || s[o.len() as int] == 0x0a
}

/// The comments among `items`, in order.
pub open spec fn comments_in(items: Seq<Item>) -> Seq<(int, int)>
    decreases items.len(),
{
    if items.len() == 0 {
        seq![]
    } else {
        (match items[0] {
            Item::Comment(a, b) => seq![(a as int, b as int)],
            _ => Seq::<(int, int)>::empty(),
        }) + comments_in(items.drop_first())
    }
}

/// Every comment among `items` is a comment of `t`.
spec fn comments_good(t: Seq<u8>, items: Seq<Item>) -> bool {
    forall|i: int|
        0 <= i < items.len() ==> match #[trigger] items[i] {
            Item::Comment(a, b) => comment_ok(t, a as int, b as int),
            _ => true,
        }
}

/// No comment among `items` is a line comment.
spec fn no_lc(t: Seq<u8>, items: Seq<Item>) -> bool {
    forall|k: int|
        0 <= k < items.len() && (#[trigger] items[k]) is Comment ==> t[items[k]->Comment_0 as int
            + 1] != 0x2f
}

proof fn lemma_ranges_empty(out: Seq<u8>, t: Seq<u8>, lo: int)
    requires
        0 <= lo,
    ensures
        ranges_at(out, t, seq![], seq![], lo),
{
}

proof fn lemma_ranges_lower(out: Seq<u8>, t: Seq<u8>, rs: Seq<(int, int)>, ps: Seq<int>, lo: int, lo2: int)
    requires
        ranges_at(out, t, rs, ps, lo2),
        0 <= lo <= lo2,
    ensures
        ranges_at(out, t, rs, ps, lo),
{
}

/// A text that a line comment ends does not end a line.
proof fn lemma_dangle_column(out: Seq<u8>, t: Seq<u8>, rs: Seq<(int, int)>, ps: Seq<int>, lo: int)
    requires
        ranges_at(out, t, rs, ps, lo),
        dangles(out, t, rs, ps),
    ensures
        crate::jsonc_format::column(out) != 0,
{
    let j = choose|j: int|
        0 <= j < ps.len() && t[rs[j].0 + 1] == 0x2f && #[trigger] ps[j] + (rs[j].1 - rs[j].0)
            == out.len();
    let e = ps[j] + (rs[j].1 - rs[j].0);
    assert(out.subrange(ps[j], e) == t.subrange(rs[j].0, rs[j].1));
    assert(out[e - 1] == out.subrange(ps[j], e)[e - 1 - ps[j]]);
    assert(out.last() == t[rs[j].1 - 1]);
}

/// Placements in a shorter text leave a longer one that it begins open to nothing.
proof fn lemma_no_dangle_longer(
    x: Seq<u8>,
    out: Seq<u8>,
    t: Seq<u8>,
    rs: Seq<(int, int)>,
    ps: Seq<int>,
    lo: int,
)
    requires
        ranges_at(x, t, rs, ps, lo),
        x.len() < out.len(),
    ensures
        !dangles(out, t, rs, ps),
{
}

/// Placements stay valid in a text that the placed-in text begins.
proof fn lemma_ranges_pre(o: Seq<u8>, s: Seq<u8>, t: Seq<u8>, rs: Seq<(int, int)>, ps: Seq<int>, lo: int)
    requires
        ranges_at(o, t, rs, ps, lo),
        pre(o, s),
        dangles(o, t, rs, ps) ==> closes(o, s),
    ensures
        ranges_at(s, t, rs, ps, lo),
{
    assert forall|j: int| 0 <= j < ps.len() && t[rs[j].0 + 1] == 0x2f implies #[trigger] ps[j] + (
    rs[j].1 - rs[j].0) == s.len() || s[ps[j] + (rs[j].1 - rs[j].0)] == 0x0a by {
        let e = ps[j] + (rs[j].1 - rs[j].0);
        if e == o.len() {
            assert(dangles(o, t, rs, ps));
        } else {
            assert(s[e] == s.subrange(0, o.len() as int)[e]);
        }
    }
    assert forall|j: int| 0 <= j < ps.len() implies #[trigger] ps[j] == 0 || s[ps[j] - 1] == 0x20
        || s[ps[j] - 1] == 0x0a by {
        if ps[j] > 0 {
            assert(s[ps[j] - 1] == s.subrange(0, o.len() as int)[ps[j] - 1]);
        }
    }
    assert forall|j: int| 0 <= j < ps.len() implies lo <= #[trigger] ps[j] && 0 <= rs[j].0
        <= rs[j].1 <= t.len() && ps[j] + (rs[j].1 - rs[j].0) <= s.len() && s.subrange(
        ps[j],
        ps[j] + (rs[j].1 - rs[j].0),
    ) == t.subrange(rs[j].0, rs[j].1) by {
        let a = ps[j];
        let b = ps[j] + (rs[j].1 - rs[j].0);
        assert(s.subrange(a, b) =~= o.subrange(a, b)) by {
            assert forall|q: int| 0 <= q < b - a implies s.subrange(a, b)[q] == o.subrange(a, b)[q] by {
                assert(s[a + q] == s.subrange(0, o.len() as int)[a + q]);
            }
        }
    }
}

/// Two placements, the second after the end of the text of the first, make one.
proof fn lemma_ranges_concat(
    o: Seq<u8>,
    s: Seq<u8>,
    t: Seq<u8>,
    rs1: Seq<(int, int)>,
    ps1: Seq<int>,
    rs2: Seq<(int, int)>,
    ps2: Seq<int>,
    lo: int,
)
    requires
        ranges_at(o, t, rs1, ps1, lo),
        pre(o, s),
        ranges_at(s, t, rs2, ps2, o.len() as int),
        lo <= o.len(),
        dangles(o, t, rs1, ps1) ==> closes(o, s),
    ensures
        ranges_at(s, t, rs1 + rs2, ps1 + ps2, lo),
        dangles(s, t, rs1 + rs2, ps1 + ps2) ==> dangles(s, t, rs2, ps2) || (dangles(o, t, rs1, ps1)
            && s.len() == o.len()),
{
    lemma_ranges_pre(o, s, t, rs1, ps1, lo);
    let rs = rs1 + rs2;
    let ps = ps1 + ps2;
    let n = ps1.len();
    assert forall|j: int| 0 <= j < ps.len() implies lo <= #[trigger] ps[j] && 0 <= rs[j].0
        <= rs[j].1 <= t.len() && ps[j] + (rs[j].1 - rs[j].0) <= s.len() && s.subrange(
        ps[j],
        ps[j] + (rs[j].1 - rs[j].0),
    ) == t.subrange(rs[j].0, rs[j].1) by {
        if j < n {
            assert(ps[j] == ps1[j] && rs[j] == rs1[j]);
        } else {
            assert(ps[j] == ps2[j - n] && rs[j] == rs2[j - n]);
        }
    }
    assert forall|j: int, k: int| 0 <= j < k < ps.len() implies #[trigger] ps[j] + (rs[j].1
        - rs[j].0) <= #[trigger] ps[k] by {
        if k < n {
            assert(ps[j] == ps1[j] && rs[j] == rs1[j] && ps[k] == ps1[k]);
            assert(ps1[j] + (rs1[j].1 - rs1[j].0) <= ps1[k]);
        } else if j >= n {
            assert(ps[j] == ps2[j - n] && rs[j] == rs2[j - n] && ps[k] == ps2[k - n]);
            assert(ps2[j - n] + (rs2[j - n].1 - rs2[j - n].0) <= ps2[k - n]);
        } else {
            assert(ps[j] == ps1[j] && rs[j] == rs1[j] && ps[k] == ps2[k - n]);
            assert(ps1[j] + (rs1[j].1 - rs1[j].0) <= o.len());
            assert(o.len() <= ps2[k - n]);
        }
    }
}

proof fn lemma_first_lines_add(t: Seq<u8>, a: Seq<(int, int)>, b: Seq<(int, int)>)
    ensures
        first_lines(t, a + b) == first_lines(t, a) + first_lines(t, b),
{
    assert(first_lines(t, a + b) =~= first_lines(t, a) + first_lines(t, b));
}

proof fn lemma_comments_in_add(a: Seq<Item>, b: Seq<Item>)
    ensures
        comments_in(a + b) == comments_in(a) + comments_in(b),
    decreases a.len(),
{
    if a.len() == 0 {
        assert(a + b =~= b);
        assert(comments_in(a) =~= Seq::<(int, int)>::empty());
        assert(comments_in(a) + comments_in(b) =~= comments_in(b));
    } else {
        assert((a + b).drop_first() =~= a.drop_first() + b);
        assert((a + b)[0] == a[0]);
        lemma_comments_in_add(a.drop_first(), b);
        let h = match a[0] {
            Item::Comment(x, y) => seq![(x as int, y as int)],
            _ => Seq::<(int, int)>::empty(),
        };
        assert(comments_in(a + b) =~= h + (comments_in(a.drop_first()) + comments_in(b)));
        assert(comments_in(a) == h + comments_in(a.drop_first()));
        assert(comments_in(a) + comments_in(b) =~= h + (comments_in(a.drop_first()) + comments_in(b)));
    }
}

proof fn lemma_comments_in_one(it: Item)
    ensures
        comments_in(seq![it]) == match it {
            Item::Comment(a, b) => seq![(a as int, b as int)],
            _ => Seq::<(int, int)>::empty(),
        },
{
    reveal_with_fuel(comments_in, 2);
    assert(seq![it].drop_first() =~= Seq::<Item>::empty());
    assert(seq![it][0] == it);
    let h = match it {
        Item::Comment(a, b) => seq![(a as int, b as int)],
        _ => Seq::<(int, int)>::empty(),
    };
    assert(h + Seq::<(int, int)>::empty() =~= h);
}

/// The comments of the items from the `k`-th on: those of the `k`-th, then the rest.
proof fn lemma_comments_in_step(items: Seq<Item>, k: int)
    requires
        0 <= k < items.len(),
    ensures
        comments_in(items.subrange(k, items.len() as int)) == (match items[k] {
            Item::Comment(a, b) => seq![(a as int, b as int)],
            _ => Seq::<(int, int)>::empty(),
        }) + comments_in(items.subrange(k + 1, items.len() as int)),
{
    let s = items.subrange(k, items.len() as int);
    assert(s[0] == items[k]);
    assert(s.drop_first() =~= items.subrange(k + 1, items.len() as int));
}

/// `o` followed by comment `[a, b)` of `t`: the comment's first line is placed at the
/// end of `o`.
proof fn lemma_comment(d: Doc, o: Seq<u8>, a: int, b: int) -> (ps: Seq<int>)
    requires
        comment_ok(d.t, a, b),
        set_off(o),
    ensures
        pre(o, d.comment(o, a, b)),
        ranges_at(d.comment(o, a, b), d.t, first_lines(d.t, seq![(a, b)]), ps, o.len() as int),
        d.comment(o, a, b).len() >= o.len() + 2,
        first_lines(d.t, seq![(a, b)])[0].0 == a,
{
    let t = d.t;
    let e = first_line_end(t, a, b);
    let rs = first_lines(t, seq![(a, b)]);
    assert(rs =~= seq![(a, e)]);
    let ps = seq![o.len() as int];
    if t[a + 1] == 0x2f {
        lemma_pre_add(o, t.subrange(a, e));
        assert((o + t.subrange(a, e)).subrange(o.len() as int, o.len() + (e - a)) =~= t.subrange(a, e));
    } else {
        lemma_next_lf(t, a, b);
        if next_lf(t, a, b) < a + 2 {
            assert(t[next_lf(t, a, b)] == 0x0a);
        }
        let o2 = o + t.subrange(a, e);
        lemma_pre_add(o, t.subrange(a, e));
        assert(o2.subrange(o.len() as int, o.len() + (e - a)) =~= t.subrange(a, e));
        let le = next_lf(t, a, b);
        let in_col = a - crate::error::line_start(t, a);
        let out_col = crate::jsonc_format::column(o) as int;
        if !(le >= b || le + 1 <= a) {
            lemma_block_lines(d, o2, b, le + 1, false, in_col, out_col);
            lemma_pre_trans(o, o2, d.block_lines(o2, b, le + 1, false, in_col, out_col));
            lemma_ranges_pre(o2, d.block_lines(o2, b, le + 1, false, in_col, out_col), t, rs, ps, o.len() as int);
        }
    }
    ps
}

/// The comments of the items from the `k`-th on, as first-line ranges.
spec fn rest_lines(t: Seq<u8>, items: Seq<Item>, k: int) -> Seq<(int, int)> {
    first_lines(t, comments_in(items.subrange(k, items.len() as int)))
}

proof fn lemma_rest_empty(t: Seq<u8>, items: Seq<Item>, k: int)
    requires
        k == items.len(),
    ensures
        rest_lines(t, items, k) == Seq::<(int, int)>::empty(),
{
    assert(items.subrange(k, items.len() as int) =~= Seq::<Item>::empty());
    assert(rest_lines(t, items, k) =~= Seq::<(int, int)>::empty());
}

/// The first-line ranges of the items from the `k`-th on: those of the `k`-th, then the
/// rest.
proof fn lemma_rest_step(t: Seq<u8>, items: Seq<Item>, k: int)
    requires
        0 <= k < items.len(),
    ensures
        rest_lines(t, items, k) == first_lines(t, match items[k] {
            Item::Comment(a, b) => seq![(a as int, b as int)],
            _ => Seq::<(int, int)>::empty(),
        }) + rest_lines(t, items, k + 1),
{
    lemma_comments_in_step(items, k);
    let h = match items[k] {
        Item::Comment(a, b) => seq![(a as int, b as int)],
        _ => Seq::<(int, int)>::empty(),
    };
    lemma_first_lines_add(t, h, comments_in(items.subrange(k + 1, items.len() as int)));
}

/// A fresh line, indented, sets off what follows it.
proof fn lemma_set_off_line(d: Doc, o: Seq<u8>, last: int, next: int, level: int)
    ensures
        set_off(d.indent(d.newline_and_blank(o, last, next), level)),
{
    let o1 = if crate::jsonc_format::column(o) != 0 {
        o.push(0x0a)
    } else {
        o
    };
    let n = d.newline_and_blank(o, last, next);
    let sp = crate::jsonc_layout::spaces(
        crate::jsonc_layout::sat_mul(d.f.indent_size as int, level) as nat,
    );
    assert(set_off(n));
    if sp.len() > 0 {
        assert((n + sp).last() == sp.last());
    } else {
        assert(n + sp =~= n);
    }
}

/// Starting a fresh line after text that does not end one puts a line feed right after
/// it.
proof fn lemma_nl_closes(d: Doc, o: Seq<u8>, last: int, next: int, level: int, s: Seq<u8>)
    requires
        crate::jsonc_format::column(o) != 0,
        pre(d.indent(d.newline_and_blank(o, last, next), level), s),
    ensures
        closes(o, s),
        s.len() > o.len(),
        s[o.len() as int] == 0x0a,
{
    let o1 = o.push(0x0a);
    let n = d.newline_and_blank(o, last, next);
    let x = d.indent(n, level);
    lemma_pre_push(o1, 0x0a);
    lemma_pre_refl(o1);
    assert(pre(o1, n));
    lemma_pre_add(n, crate::jsonc_layout::spaces(
        crate::jsonc_layout::sat_mul(d.f.indent_size as int, level) as nat,
    ));
    lemma_pre_trans(o1, n, x);
    lemma_pre_trans(o1, x, s);
    assert(s[o.len() as int] == s.subrange(0, o1.len() as int)[o.len() as int]);
}

proof fn lemma_gap_from(
    d: Doc,
    o: Seq<u8>,
    level: int,
    prev_end: int,
    items: Seq<Item>,
    k: int,
    at_ls: bool,
    last_line: int,
    lce: int,
    force: bool,
    y: int,
) -> (ps: Seq<int>)
    requires
        doc_ok(d),
        comments_good(d.t, items),
        0 <= k <= items.len(),
        at_ls ==> set_off(o),
        items_in(d, items, prev_end, y),
        y <= d.t.len(),
        0 <= prev_end,
        no_straddle(d, prev_end),
    ensures
        ({
            let r = d.gap_from(o, level, prev_end, items, k, at_ls, last_line, lce, force);
            &&& pre(o, r.0)
            &&& ranges_at(r.0, d.t, rest_lines(d.t, items, k), ps, o.len() as int)
            &&& k < items.len() ==> r.0.len() > o.len()
            &&& (k >= items.len() || force || crate::jsonc_layout::line_breaks(
                d.t,
                d.cm,
                prev_end,
                items[k].spec_position() as int,
            ) > last_line) && crate::jsonc_format::column(o) != 0 ==> closes(o, r.0)
            &&& dangles(r.0, d.t, rest_lines(d.t, items, k), ps) ==> gap_dangles(d, items, prev_end, force, r)
        }),
    decreases items.len() - k,
{
    lemma_pre_refl(o);
    if k == items.len() {
        lemma_rest_empty(d.t, items, k);
        lemma_ranges_empty(o, d.t, o.len() as int);
        seq![]
    } else {
        lemma_rest_step(d.t, items, k);
        let item = items[k];
        let pos = item.spec_position() as int;
        let line = if force {
            last_line + 1
        } else {
            crate::jsonc_layout::line_breaks(d.t, d.cm, prev_end, pos)
        };
        let o1 = if line > last_line {
            d.indent(d.newline_and_blank(o, lce, pos), level)
        } else {
            o
        };
        let at1 = if line > last_line {
            true
        } else {
            at_ls
        };
        lemma_line_start(d, o, lce, pos, level);
        lemma_set_off_line(d, o, lce, pos, level);
        lemma_pre_refl(o1);
        match item {
            Item::Comment(a, b) => {
                let oc = if !at1 {
                    o1.push(0x20)
                } else {
                    o1
                };
                lemma_pre_push(o1, 0x20);
                lemma_pre_trans(o, o1, oc);
                let ps1 = lemma_comment(d, oc, a as int, b as int);
                let oc2 = d.comment(oc, a as int, b as int);
                let rs1 = first_lines(d.t, seq![(a as int, b as int)]);
                lemma_pre_trans(o, oc, oc2);
                lemma_pre_trans(o1, oc, oc2);
                let ps2 = lemma_gap_from(d, oc2, level, prev_end, items, k + 1, false, line, b as int, force, y);
                let r = d.gap_from(oc2, level, prev_end, items, k + 1, false, line, b as int, force);
                let out = r.0;
                lemma_pre_trans(o, oc2, out);
                lemma_pre_trans(o1, oc2, out);
                if line > last_line && crate::jsonc_format::column(o) != 0 {
                    lemma_nl_closes(d, o, lce, pos, level, out);
                }
                if dangles(oc2, d.t, rs1, ps1) {
                    lemma_dangle_column(oc2, d.t, rs1, ps1, oc.len() as int);
                    if k + 1 < items.len() && !force {
                        let q = choose|q: int|
                            0 <= q < d.cm.len() && (#[trigger] d.cm[q]).0 == items[k]->Comment_0 as int
                                && d.cm[q].1 == items[k]->Comment_1 as int;
                        assert(items[k + 1].spec_position() > b);
                        lemma_line_after(d, prev_end, q, items[k + 1].spec_position() as int);
                    }
                }
                lemma_ranges_concat(oc2, out, d.t, rs1, ps1, rest_lines(d.t, items, k + 1), ps2, oc.len() as int);
                lemma_ranges_lower(out, d.t, rest_lines(d.t, items, k), ps1 + ps2, o.len() as int, oc.len() as int);
                ps1 + ps2
            },
            Item::Comma(_) => {
                lemma_pre_push(o1, 0x2c);
                lemma_pre_trans(o, o1, o1.push(0x2c));
                let ps = lemma_gap_from(d, o1.push(0x2c), level, prev_end, items, k + 1, false, line, lce, force, y);
                let out = d.gap_from(o1.push(0x2c), level, prev_end, items, k + 1, false, line, lce, force).0;
                lemma_pre_trans(o, o1.push(0x2c), out);
                lemma_pre_trans(o1, o1.push(0x2c), out);
                if line > last_line && crate::jsonc_format::column(o) != 0 {
                    lemma_nl_closes(d, o, lce, pos, level, out);
                }
                assert(first_lines(d.t, Seq::<(int, int)>::empty()) + rest_lines(d.t, items, k + 1) =~= rest_lines(d.t, items, k + 1));
                lemma_ranges_lower(out, d.t, rest_lines(d.t, items, k), ps, o.len() as int, (o1.len() + 1) as int);
                ps
            },
            Item::Colon(_) => {
                lemma_pre_push(o1, 0x3a);
                lemma_pre_trans(o, o1, o1.push(0x3a));
                let ps = lemma_gap_from(d, o1.push(0x3a), level, prev_end, items, k + 1, false, line, lce, force, y);
                let out = d.gap_from(o1.push(0x3a), level, prev_end, items, k + 1, false, line, lce, force).0;
                lemma_pre_trans(o, o1.push(0x3a), out);
                lemma_pre_trans(o1, o1.push(0x3a), out);
                if line > last_line && crate::jsonc_format::column(o) != 0 {
                    lemma_nl_closes(d, o, lce, pos, level, out);
                }
                assert(first_lines(d.t, Seq::<(int, int)>::empty()) + rest_lines(d.t, items, k + 1) =~= rest_lines(d.t, items, k + 1));
                lemma_ranges_lower(out, d.t, rest_lines(d.t, items, k), ps, o.len() as int, (o1.len() + 1) as int);
                ps
            },
        }
    }
}

/// What a gap that ends on a line comment tells: its last item is that line comment, the
/// gap's last comment ends where it does, and, unless each item had its own line, the
/// gap's last line is the input line of that comment.
spec fn gap_dangles(d: Doc, items: Seq<Item>, prev_end: int, force: bool, r: (Seq<u8>, int, int)) -> bool {
    &&& items.len() > 0
    &&& items.last() is Comment
    &&& d.t[items.last()->Comment_0 as int + 1] == 0x2f
    &&& r.2 == items.last()->Comment_1 as int
    &&& !force ==> r.1 == crate::jsonc_layout::line_breaks(
        d.t,
        d.cm,
        prev_end,
        items.last()->Comment_0 as int,
    )
}

proof fn lemma_gap(
    d: Doc,
    o: Seq<u8>,
    level: int,
    prev_end: int,
    items: Seq<Item>,
    initial: bool,
    force: bool,
    y: int,
) -> (ps: Seq<int>)
    requires
        doc_ok(d),
        comments_good(d.t, items),
        initial ==> set_off(o),
        items_in(d, items, prev_end, y),
        y <= d.t.len(),
        0 <= prev_end,
        no_straddle(d, prev_end),
    ensures
        pre(o, d.gap(o, level, prev_end, items, initial, force).0),
        ranges_at(d.gap(o, level, prev_end, items, initial, force).0, d.t, first_lines(d.t, comments_in(items)), ps, o.len() as int),
        dangles(d.gap(o, level, prev_end, items, initial, force).0, d.t, first_lines(d.t, comments_in(items)), ps)
            ==> gap_dangles(d, items, prev_end, force, d.gap(o, level, prev_end, items, initial, force)),
{
    assert(items.subrange(0, items.len() as int) =~= items);
    lemma_gap_from(d, o, level, prev_end, items, 0, initial, 0, prev_end, force, y)
}

proof fn lemma_inline_from(d: Doc, o: Seq<u8>, items: Seq<Item>, k: int) -> (ps: Seq<int>)
    requires
        comments_good(d.t, items),
        no_lc(d.t, items),
        0 <= k <= items.len(),
    ensures
        pre(o, d.inline_from(o, items, k)),
        ranges_at(d.inline_from(o, items, k), d.t, rest_lines(d.t, items, k), ps, o.len() as int),
        !dangles(d.inline_from(o, items, k), d.t, rest_lines(d.t, items, k), ps),
    decreases items.len() - k,
{
    lemma_pre_refl(o);
    if k == items.len() {
        lemma_rest_empty(d.t, items, k);
        lemma_ranges_empty(o, d.t, o.len() as int);
        seq![]
    } else {
        lemma_rest_step(d.t, items, k);
        match items[k] {
            Item::Comment(a, b) => {
                lemma_pre_push(o, 0x20);
                let ps1 = lemma_comment(d, o.push(0x20), a as int, b as int);
                let o1 = d.comment(o.push(0x20), a as int, b as int);
                lemma_pre_trans(o, o.push(0x20), o1);
                let ps2 = lemma_inline_from(d, o1, items, k + 1);
                let out = d.inline_from(o1, items, k + 1);
                lemma_pre_trans(o, o1, out);
                assert(!dangles(o1, d.t, first_lines(d.t, seq![(a as int, b as int)]), ps1));
                lemma_ranges_concat(o1, out, d.t, first_lines(d.t, seq![(a as int, b as int)]), ps1, rest_lines(d.t, items, k + 1), ps2, (o.len() + 1) as int);
                lemma_ranges_lower(out, d.t, rest_lines(d.t, items, k), ps1 + ps2, o.len() as int, (o.len() + 1) as int);
                ps1 + ps2
            },
            Item::Comma(_) => {
                lemma_pre_push(o, 0x2c);
                let ps = lemma_inline_from(d, o.push(0x2c), items, k + 1);
                lemma_pre_trans(o, o.push(0x2c), d.inline_from(o.push(0x2c), items, k + 1));
                assert(first_lines(d.t, Seq::<(int, int)>::empty()) + rest_lines(d.t, items, k + 1) =~= rest_lines(d.t, items, k + 1));
                lemma_ranges_lower(d.inline_from(o.push(0x2c), items, k + 1), d.t, rest_lines(d.t, items, k), ps, o.len() as int, (o.len() + 1) as int);
                ps
            },
            Item::Colon(_) => {
                lemma_pre_push(o, 0x3a);
                let ps = lemma_inline_from(d, o.push(0x3a), items, k + 1);
                lemma_pre_trans(o, o.push(0x3a), d.inline_from(o.push(0x3a), items, k + 1));
                assert(first_lines(d.t, Seq::<(int, int)>::empty()) + rest_lines(d.t, items, k + 1) =~= rest_lines(d.t, items, k + 1));
                lemma_ranges_lower(d.inline_from(o.push(0x3a), items, k + 1), d.t, rest_lines(d.t, items, k), ps, o.len() as int, (o.len() + 1) as int);
                ps
            },
        }
    }
}

proof fn lemma_gap_comments_from(d: Doc, o: Seq<u8>, items: Seq<Item>, k: int, space_after: bool) -> (ps: Seq<int>)
    requires
        comments_good(d.t, items),
        0 <= k <= items.len(),
        space_after ==> set_off(o),
        no_lc(d.t, items),
    ensures
        pre(o, d.gap_comments_from(o, items, k, space_after)),
        ranges_at(d.gap_comments_from(o, items, k, space_after), d.t, rest_lines(d.t, items, k), ps, o.len() as int),
        !dangles(d.gap_comments_from(o, items, k, space_after), d.t, rest_lines(d.t, items, k), ps),
    decreases items.len() - k,
{
    lemma_pre_refl(o);
    if k == items.len() {
        lemma_rest_empty(d.t, items, k);
        lemma_ranges_empty(o, d.t, o.len() as int);
        seq![]
    } else {
        lemma_rest_step(d.t, items, k);
        match items[k] {
            Item::Comment(a, b) => {
                let (o1, ps1, lo1) = if space_after {
                    let ps1 = lemma_comment(d, o, a as int, b as int);
                    let oc = d.comment(o, a as int, b as int);
                    assert(!dangles(oc, d.t, first_lines(d.t, seq![(a as int, b as int)]), ps1));
                    lemma_pre_push(oc, 0x20);
                    lemma_pre_trans(o, oc, oc.push(0x20));
                    lemma_ranges_pre(oc, oc.push(0x20), d.t, first_lines(d.t, seq![(a as int, b as int)]), ps1, o.len() as int);
                    (oc.push(0x20), ps1, o.len() as int)
                } else {
                    lemma_pre_push(o, 0x20);
                    let ps1 = lemma_comment(d, o.push(0x20), a as int, b as int);
                    let oc = d.comment(o.push(0x20), a as int, b as int);
                    lemma_pre_trans(o, o.push(0x20), oc);
                    (oc, ps1, (o.len() + 1) as int)
                };
                let ps2 = lemma_gap_comments_from(d, o1, items, k + 1, space_after);
                let out = d.gap_comments_from(o1, items, k + 1, space_after);
                lemma_pre_trans(o, o1, out);
                assert(!dangles(o1, d.t, first_lines(d.t, seq![(a as int, b as int)]), ps1));
                lemma_ranges_concat(o1, out, d.t, first_lines(d.t, seq![(a as int, b as int)]), ps1, rest_lines(d.t, items, k + 1), ps2, lo1);
                lemma_ranges_lower(out, d.t, rest_lines(d.t, items, k), ps1 + ps2, o.len() as int, lo1);
                ps1 + ps2
            },
            _ => {
                let ps = lemma_gap_comments_from(d, o, items, k + 1, space_after);
                assert(first_lines(d.t, Seq::<(int, int)>::empty()) + rest_lines(d.t, items, k + 1) =~= rest_lines(d.t, items, k + 1));
                ps
            },
        }
    }
}

/// What the layout of a document rests on: the facts that a successful parse gives.
#[verifier::opaque]
spec fn doc_ok(d: Doc) -> bool {
    &&& index_wf(d.t, d.ev)
    &&& spans_in(d.ev, 0, d.ev.len() as int)
    &&& comments_ok(d.t, d.cm, d.t.len() as int)
    &&& apart(d.cm, d.ev, d.t.len() as int, Set::empty())
    &&& d.t.len() <= usize::MAX
}

/// The number of comments that start before `p`.
spec fn sa(d: Doc, p: int) -> int {
    split_at(d.cm, p, true)
}

proof fn lemma_split_start(t: Seq<u8>, cm: Seq<(int, int)>, pos: int, k: int)
    requires
        comments_ok(t, cm, t.len() as int),
        0 <= k <= cm.len(),
        forall|j: int| 0 <= j < k ==> comment_before(cm, j, pos, true),
    ensures
        exists|r: int| splits(cm, pos, true, r),
    decreases cm.len() - k,
{
    if k == cm.len() {
        assert(splits(cm, pos, true, k));
    } else if comment_before(cm, k, pos, true) {
        lemma_split_start(t, cm, pos, k + 1);
    } else {
        assert forall|j: int| k <= j < cm.len() implies !comment_before(cm, j, pos, true) by {
            if j > k {
                assert(cm[k].1 <= cm[j].0);
                assert(comment_ok(t, cm[k].0, cm[k].1));
            }
        }
        assert(splits(cm, pos, true, k));
    }
}

proof fn lemma_sa(d: Doc, p: int)
    requires
        doc_ok(d),
    ensures
        splits(d.cm, p, true, sa(d, p)),
        0 <= sa(d, p) <= d.cm.len(),
{
    reveal(doc_ok);
    lemma_split_start(d.t, d.cm, p, 0);
}

proof fn lemma_sa_mono(d: Doc, x: int, y: int)
    requires
        doc_ok(d),
        x <= y,
    ensures
        sa(d, x) <= sa(d, y),
{
    lemma_sa(d, x);
    lemma_sa(d, y);
    if sa(d, y) < sa(d, x) {
        assert(comment_before(d.cm, sa(d, y), x, true));
        assert(!comment_before(d.cm, sa(d, y), y, true));
    }
}

/// With no comment starting in `[x, y)`, as many comments start before `x` as before
/// `y`.
proof fn lemma_sa_same(d: Doc, x: int, y: int)
    requires
        doc_ok(d),
        x <= y,
        forall|q: int| 0 <= q < d.cm.len() ==> !(x <= #[trigger] d.cm[q].0 < y),
    ensures
        sa(d, x) == sa(d, y),
{
    lemma_sa(d, x);
    let r = sa(d, x);
    assert(splits(d.cm, y, true, r)) by {
        assert forall|k: int| 0 <= k < r implies comment_before(d.cm, k, y, true) by {
            assert(comment_before(d.cm, k, x, true));
        }
        assert forall|k: int| r <= k < d.cm.len() implies !comment_before(d.cm, k, y, true) by {
            assert(!comment_before(d.cm, k, x, true));
            assert(!(x <= d.cm[k].0 < y));
        }
    }
    lemma_split_at(d.cm, y, true, r);
}

proof fn lemma_good_add(t: Seq<u8>, a: Seq<Item>, b: Seq<Item>)
    requires
        comments_good(t, a),
        comments_good(t, b),
    ensures
        comments_good(t, a + b),
{
    assert forall|i: int| 0 <= i < (a + b).len() implies match #[trigger] (a + b)[i] {
        Item::Comment(x, y) => comment_ok(t, x as int, y as int),
        _ => true,
    } by {
        if i < a.len() {
            assert((a + b)[i] == a[i]);
        } else {
            assert((a + b)[i] == b[i - a.len()]);
        }
    }
}

/// The comments that scanning a gap from `p` up to `end` finds are those of `cm` from
/// `ci` on that start before `end`.
proof fn lemma_scan(d: Doc, p: int, ci: int, end: int)
    requires
        doc_ok(d),
        0 <= p,
        0 <= ci <= d.cm.len(),
        end <= d.t.len(),
        forall|q: int| 0 <= q < ci ==> #[trigger] d.cm[q].0 < end,
        forall|q: int| ci <= q < d.cm.len() ==> #[trigger] d.cm[q].0 >= p,
    ensures
        ci <= sa(d, end) <= d.cm.len(),
        comments_in(scan_from(d.t, d.cm, p, ci, end)) == d.cm.subrange(ci, sa(d, end)),
        comments_good(d.t, scan_from(d.t, d.cm, p, ci, end)),
    decreases d.t.len() - p,
{
    reveal(doc_ok);
    let t = d.t;
    let cm = d.cm;
    lemma_sa(d, end);
    if p >= end || p >= t.len() {
        assert(splits(cm, end, true, ci));
        lemma_split_at(cm, end, true, ci);
        assert(scan_from(t, cm, p, ci, end) =~= Seq::<Item>::empty());
        assert(cm.subrange(ci, ci) =~= Seq::<(int, int)>::empty());
    } else if comment_starts(t, cm, ci, p) {
        let e = cm[ci].1;
        assert forall|q: int| ci + 1 <= q < cm.len() implies #[trigger] cm[q].0 >= e by {
            assert(cm[ci].1 <= cm[q].0);
        }
        lemma_scan(d, e, ci + 1, end);
        let x = seq![Item::Comment(p as usize, e as usize)];
        let rest = scan_from(t, cm, e, ci + 1, end);
        assert(scan_from(t, cm, p, ci, end) == x + rest);
        lemma_comments_in_add(x, rest);
        lemma_comments_in_one(Item::Comment(p as usize, e as usize));
        assert(comments_in(x) =~= seq![cm[ci]]);
        assert(cm.subrange(ci, sa(d, end)) =~= seq![cm[ci]] + cm.subrange(ci + 1, sa(d, end)));
        assert(comment_ok(t, cm[ci].0, cm[ci].1));
        assert(comments_good(t, x));
        lemma_good_add(t, x, rest);
    } else {
        if ci < cm.len() {
            assert(comment_ok(t, cm[ci].0, cm[ci].1));
            assert(cm[ci].0 != p);
        }
        assert forall|q: int| ci <= q < cm.len() implies #[trigger] cm[q].0 >= p + 1 by {
            if q > ci {
                assert(cm[ci].1 <= cm[q].0);
                assert(comment_ok(t, cm[ci].0, cm[ci].1));
            }
        }
        lemma_scan(d, p + 1, ci, end);
        let rest = scan_from(t, cm, p + 1, ci, end);
        if t[p] == 0x2c || t[p] == 0x3a {
            let x = if t[p] == 0x2c {
                seq![Item::Comma(p as usize)]
            } else {
                seq![Item::Colon(p as usize)]
            };
            assert(scan_from(t, cm, p, ci, end) == x + rest);
            lemma_comments_in_add(x, rest);
            lemma_comments_in_one(x[0]);
            assert(comments_in(x) =~= Seq::<(int, int)>::empty());
            assert(comments_in(x) + comments_in(rest) =~= comments_in(rest));
            assert(comments_good(t, x));
            lemma_good_add(t, x, rest);
        }
    }
}

/// The comments in the gap `[x, y)` are those of `cm` that start in it.
proof fn lemma_gap_items(d: Doc, x: int, y: int)
    requires
        doc_ok(d),
        0 <= x <= y <= d.t.len(),
    ensures
        sa(d, x) <= sa(d, y),
        comments_in(gap_items(d.t, d.cm, x, y)) == d.cm.subrange(sa(d, x), sa(d, y)),
        comments_good(d.t, gap_items(d.t, d.cm, x, y)),
{
    lemma_sa(d, x);
    lemma_sa_mono(d, x, y);
    if x == y {
        assert(gap_items(d.t, d.cm, x, y) =~= Seq::<Item>::empty());
        assert(d.cm.subrange(sa(d, x), sa(d, y)) =~= Seq::<(int, int)>::empty());
    } else {
        assert forall|q: int| 0 <= q < sa(d, x) implies #[trigger] d.cm[q].0 < y by {
            assert(comment_before(d.cm, q, x, true));
        }
        assert forall|q: int| sa(d, x) <= q < d.cm.len() implies #[trigger] d.cm[q].0 >= x by {
            assert(!comment_before(d.cm, q, x, true));
        }
        lemma_scan(d, x, sa(d, x), y);
    }
}

proof fn lemma_drop_commas(t: Seq<u8>, items: Seq<Item>)
    requires
        comments_good(t, items),
    ensures
        comments_in(drop_commas(items)) == comments_in(items),
        comments_good(t, drop_commas(items)),
    decreases items.len(),
{
    if items.len() > 0 {
        let init = items.drop_last();
        assert(comments_good(t, init)) by {
            assert forall|i: int| 0 <= i < init.len() implies match #[trigger] init[i] {
                Item::Comment(x, y) => comment_ok(t, x as int, y as int),
                _ => true,
            } by {
                assert(init[i] == items[i]);
            }
        }
        lemma_drop_commas(t, init);
        let l = seq![items.last()];
        assert(items =~= init + l);
        lemma_comments_in_add(init, l);
        let x = if items.last() is Comma {
            Seq::<Item>::empty()
        } else {
            l
        };
        lemma_comments_in_add(drop_commas(init), x);
        assert(l.drop_first() =~= Seq::<Item>::empty());
        if items.last() is Comma {
            assert(comments_in(l) =~= Seq::<(int, int)>::empty());
            assert(drop_commas(init) + x =~= drop_commas(init));
            assert(comments_in(init) + comments_in(l) =~= comments_in(init));
        }
        assert(comments_good(t, x)) by {
            if !(items.last() is Comma) {
                assert(x[0] == items[items.len() - 1]);
            }
        }
        lemma_good_add(t, drop_commas(init), x);
    }
}

proof fn lemma_trailing(d: Doc, i: int, multiline: bool, tail: Seq<Item>)
    requires
        comments_good(d.t, tail),
    ensures
        comments_in(d.trailing(i, multiline, tail)) == comments_in(tail),
        comments_good(d.t, d.trailing(i, multiline, tail)),
{
    lemma_drop_commas(d.t, tail);
    let x = seq![Item::Comma(d.last_end(i) as usize)];
    lemma_comments_in_add(x, tail);
    lemma_comments_in_one(x[0]);
    assert(comments_in(x) =~= Seq::<(int, int)>::empty());
    assert(comments_in(x) + comments_in(tail) =~= comments_in(tail));
    assert(comments_good(d.t, x));
    lemma_good_add(d.t, x, tail);
}

/// The comments of `cm` from `lo` up to `hi` that start at or after `from`.
proof fn lemma_comments_from(d: Doc, lo: int, hi: int, from: int)
    requires
        doc_ok(d),
        0 <= lo <= hi <= d.cm.len(),
        lo <= sa(d, from),
    ensures
        comments_in(comments_from(d.cm, lo, hi, from)) == d.cm.subrange(
            if hi <= sa(d, from) {
                hi
            } else {
                sa(d, from)
            },
            hi,
        ),
        comments_good(d.t, comments_from(d.cm, lo, hi, from)),
    decreases hi - lo,
{
    reveal(doc_ok);
    lemma_sa(d, from);
    let cm = d.cm;
    let s = sa(d, from);
    if hi == lo {
        assert(comments_from(cm, lo, hi, from) =~= Seq::<Item>::empty());
        assert(cm.subrange(hi, hi) =~= Seq::<(int, int)>::empty());
    } else {
        lemma_comments_from(d, lo, hi - 1, from);
        let prev = comments_from(cm, lo, hi - 1, from);
        assert(comment_ok(d.t, cm[hi - 1].0, cm[hi - 1].1));
        let x = if cm[hi - 1].0 >= from {
            seq![Item::Comment(cm[hi - 1].0 as usize, cm[hi - 1].1 as usize)]
        } else {
            Seq::<Item>::empty()
        };
        assert(comments_from(cm, lo, hi, from) == prev + x);
        lemma_comments_in_add(prev, x);
        assert(comments_good(d.t, x));
        lemma_good_add(d.t, prev, x);
        if hi - 1 >= s {
            assert(!comment_before(cm, hi - 1, from, true));
            lemma_comments_in_one(x[0]);
            assert(comments_in(x) =~= seq![cm[hi - 1]]);
            assert(cm.subrange(s, hi) =~= cm.subrange(s, hi - 1) + seq![cm[hi - 1]]);
        } else {
            assert(comment_before(cm, hi - 1, from, true));
            assert(comments_in(x) =~= Seq::<(int, int)>::empty());
            assert(cm.subrange(hi, hi) =~= Seq::<(int, int)>::empty());
            assert(cm.subrange(hi - 1, hi - 1) =~= Seq::<(int, int)>::empty());
            assert(comments_in(prev) + comments_in(x) =~= comments_in(prev));
        }
    }
}

/// The first lines of the comments that start in `[a, b)`.
spec fn cover(d: Doc, a: int, b: int) -> Seq<(int, int)> {
    first_lines(d.t, d.cm.subrange(sa(d, a), sa(d, b)))
}

proof fn lemma_cover_concat(d: Doc, a: int, b: int, c: int)
    requires
        doc_ok(d),
        a <= b <= c,
    ensures
        cover(d, a, b) + cover(d, b, c) == cover(d, a, c),
{
    lemma_sa(d, a);
    lemma_sa(d, c);
    lemma_sa_mono(d, a, b);
    lemma_sa_mono(d, b, c);
    let cm = d.cm;
    assert(cm.subrange(sa(d, a), sa(d, b)) + cm.subrange(sa(d, b), sa(d, c)) =~= cm.subrange(
        sa(d, a),
        sa(d, c),
    ));
    lemma_first_lines_add(d.t, cm.subrange(sa(d, a), sa(d, b)), cm.subrange(sa(d, b), sa(d, c)));
}

proof fn lemma_cover_empty(d: Doc, a: int, b: int)
    requires
        doc_ok(d),
        sa(d, a) == sa(d, b),
    ensures
        cover(d, a, b) == Seq::<(int, int)>::empty(),
{
    lemma_sa(d, a);
    assert(cover(d, a, b) =~= Seq::<(int, int)>::empty());
}

/// No comment starts inside a scalar.
proof fn lemma_scalar_cover(d: Doc, j: int)
    requires
        doc_ok(d),
        0 <= j < d.ev.len(),
        is_scalar(d.ev[j]),
    ensures
        sa(d, d.ev[j].start) == sa(d, d.ev[j].end),
        d.ev[j].start < d.ev[j].end,
{
    reveal(doc_ok);
    assert(entry_in(d.t, d.ev, j, d.ev.len() as int));
    assert forall|q: int| 0 <= q < d.cm.len() implies !(d.ev[j].start <= #[trigger] d.cm[q].0
        < d.ev[j].end) by {
        assert(is_scalar(d.ev[j]));
    }
    lemma_sa_same(d, d.ev[j].start, d.ev[j].end);
}

/// No comment starts at the bracket that opens or closes a container.
proof fn lemma_container_cover(d: Doc, j: int)
    requires
        doc_ok(d),
        0 <= j < d.ev.len(),
        !is_scalar(d.ev[j]),
    ensures
        d.ev[j].start + 1 <= d.ev[j].end - 1,
        sa(d, d.ev[j].start) == sa(d, d.ev[j].start + 1),
        sa(d, d.ev[j].end - 1) == sa(d, d.ev[j].end),
        cover(d, d.ev[j].start, d.ev[j].end) == cover(d, d.ev[j].start + 1, d.ev[j].end - 1),
{
    reveal(doc_ok);
    let e = d.ev[j];
    assert(entry_in(d.t, d.ev, j, d.ev.len() as int));
    assert forall|q: int| 0 <= q < d.cm.len() implies !(e.start <= #[trigger] d.cm[q].0 < e.start
        + 1) by {
        assert(comment_ok(d.t, d.cm[q].0, d.cm[q].1));
    }
    assert forall|q: int| 0 <= q < d.cm.len() implies !(e.end - 1 <= #[trigger] d.cm[q].0 < e.end) by {
        assert(comment_ok(d.t, d.cm[q].0, d.cm[q].1));
    }
    lemma_sa_same(d, e.start, e.start + 1);
    lemma_sa_same(d, e.end - 1, e.end);
}

/// The children of value `i` lie inside its brackets, each ending before the next
/// starts.
proof fn lemma_kids(d: Doc, i: int)
    requires
        doc_ok(d),
        0 <= i < d.ev.len(),
    ensures
        ({
            let e = d.kids(i);
            &&& forall|k: int|
                0 <= k < e.len() ==> i < #[trigger] e[k] < d.ev.len() && d.ev[i].start < d.ev[e[k]].start
                    < d.ev[e[k]].end < d.ev[i].end
            &&& forall|k: int| 0 <= k < e.len() - 1 ==> d.ev[e[k]].end < d.ev[#[trigger] e[k + 1]].start
        }),
{
    reveal(doc_ok);
    crate::jsonc_lexemes::lemma_tiles(d.t, d.ev, i);
    let e = d.kids(i);
    assert forall|k: int| 0 <= k < e.len() implies i < #[trigger] e[k] < d.ev.len() && d.ev[i].start
        < d.ev[e[k]].start < d.ev[e[k]].end < d.ev[i].end by {
        assert(span_rel(d.ev, i, e[k]));
        assert(entry_in(d.t, d.ev, e[k], d.ev.len() as int));
    }
    assert forall|k: int| 0 <= k < e.len() - 1 implies d.ev[e[k]].end < d.ev[#[trigger] e[k
        + 1]].start by {
        assert(e[k + 1] == d.ev[e[k]].end_index);
        assert(span_rel(d.ev, e[k], e[k + 1]));
    }
}

/// The text of value `i` lies in the document.
proof fn lemma_bounds(d: Doc, i: int)
    requires
        doc_ok(d),
        0 <= i < d.ev.len(),
    ensures
        0 <= d.ev[i].start < d.ev[i].end <= d.t.len(),
        d.ev[i].end_index <= d.ev.len(),
{
    reveal(doc_ok);
    assert(entry_in(d.t, d.ev, i, d.ev.len() as int));
}

/// Later children of value `i` end later.
proof fn lemma_kid_ends(d: Doc, i: int, j: int, l: int)
    requires
        0 <= j <= l < d.kids(i).len(),
        forall|k: int|
            0 <= k < d.kids(i).len() - 1 ==> d.ev[d.kids(i)[k]].end < d.ev[#[trigger] d.kids(
                i,
            )[k + 1]].start,
        forall|k: int|
            0 <= k < d.kids(i).len() ==> d.ev[#[trigger] d.kids(i)[k]].start < d.ev[d.kids(
                i,
            )[k]].end,
    ensures
        d.ev[d.kids(i)[j]].end <= d.ev[d.kids(i)[l]].end,
    decreases l - j,
{
    let e = d.kids(i);
    if j < l {
        lemma_kid_ends(d, i, j + 1, l);
        assert(d.ev[e[j]].end < d.ev[e[j + 1]].start);
        assert(d.ev[e[j + 1]].start < d.ev[e[j + 1]].end);
    }
}

/// Where the gap before the `k`-th element of array `i` begins when each element has
/// its own line: after `[`, or after the element before.
spec fn elem_gap(d: Doc, i: int, k: int) -> int {
    if k == 0 {
        d.ev[i].start + 1
    } else {
        d.ev[d.kids(i)[k - 1]].end
    }
}

/// Where the gap before the `k`-th element of array `i` begins when the array is on
/// one line: at the first element, or after the element before.
spec fn elem_gap_inline(d: Doc, i: int, k: int) -> int {
    if k == 0 {
        d.ev[d.kids(i)[0]].start
    } else {
        d.ev[d.kids(i)[k - 1]].end
    }
}

/// Where the children of value `i` end: after the last, or after `[` when there are
/// none.
spec fn kids_end(d: Doc, i: int) -> int {
    if d.kids(i).len() > 0 {
        d.ev[d.kids(i).last()].end
    } else {
        d.ev[i].start + 1
    }
}

/// The comments of the gap `[x, y)` are placed; with what the placing of `rs` after it
/// in a later text gives, the two make one placement.
proof fn lemma_join(
    d: Doc,
    o: Seq<u8>,
    mid: Seq<u8>,
    out: Seq<u8>,
    x: int,
    y: int,
    z: int,
    ps1: Seq<int>,
    ps2: Seq<int>,
    lo1: int,
    lo2: int,
)
    requires
        doc_ok(d),
        x <= y <= z,
        0 <= lo1 <= o.len(),
        o.len() <= lo2,
        ranges_at(o, d.t, cover(d, x, y), ps1, lo1),
        pre(o, mid),
        pre(mid, out),
        lo2 <= mid.len(),
        ranges_at(out, d.t, cover(d, y, z), ps2, lo2),
        dangles(o, d.t, cover(d, x, y), ps1) ==> closes(o, out),
    ensures
        pre(o, out),
        ranges_at(out, d.t, cover(d, x, z), ps1 + ps2, lo1),
        dangles(out, d.t, cover(d, x, z), ps1 + ps2) ==> dangles(out, d.t, cover(d, y, z), ps2) || (
        dangles(o, d.t, cover(d, x, y), ps1) && out.len() == o.len()),
{
    lemma_pre_trans(o, mid, out);
    lemma_ranges_lower(out, d.t, cover(d, y, z), ps2, o.len() as int, lo2);
    lemma_ranges_concat(o, out, d.t, cover(d, x, y), ps1, cover(d, y, z), ps2, lo1);
    lemma_cover_concat(d, x, y, z);
}

proof fn lemma_value(d: Doc, o: Seq<u8>, level: int, i: int) -> (ps: Seq<int>)
    requires
        doc_ok(d),
        0 <= i < d.ev.len(),
    ensures
        pre(o, d.value(o, level, i)),
        ranges_at(d.value(o, level, i), d.t, cover(d, d.ev[i].start, d.ev[i].end), ps, o.len() as int),
        !dangles(d.value(o, level, i), d.t, cover(d, d.ev[i].start, d.ev[i].end), ps),
    decreases d.ev.len() - i, 3int, 0int,
{
    lemma_bounds(d, i);
    if is_scalar(d.ev[i]) {
        lemma_scalar_cover(d, i);
        lemma_cover_empty(d, d.ev[i].start, d.ev[i].end);
        lemma_pre_add(o, d.t.subrange(d.ev[i].start, d.ev[i].end));
        lemma_ranges_empty(d.value(o, level, i), d.t, o.len() as int);
        seq![]
    } else {
        lemma_container_cover(d, i);
        if d.ev[i].kind == JsonValueKind::Array {
            if d.multiline(i) {
                lemma_ml_array(d, o, level, i)
            } else {
                lemma_sl_array(d, o, level, i)
            }
        } else {
            if d.multiline(i) {
                lemma_ml_object(d, o, level, i)
            } else {
                lemma_sl_object(d, o, level, i)
            }
        }
    }
}

/// Closing a container on its own line: the comments of its tail gap.
proof fn lemma_ml_close(
    d: Doc,
    o: Seq<u8>,
    inner: int,
    x: int,
    close: int,
    tail: Seq<Item>,
    force: bool,
    level: int,
    b: u8,
) -> (ps: Seq<int>)
    requires
        doc_ok(d),
        0 <= x <= close <= d.t.len(),
        comments_in(tail) == d.cm.subrange(sa(d, x), sa(d, close)),
        comments_good(d.t, tail),
        items_in(d, tail, x, close),
        no_straddle(d, x),
    ensures
        ({
            let r = d.gap(o, inner, x, tail, false, force);
            let out = d.indent(d.newline_and_blank(r.0, r.2, close), level).push(b);
            &&& pre(o, out)
            &&& ranges_at(out, d.t, cover(d, x, close), ps, o.len() as int)
            &&& !dangles(out, d.t, cover(d, x, close), ps)
        }),
{
    let ps = lemma_gap(d, o, inner, x, tail, false, force, close);
    let r = d.gap(o, inner, x, tail, false, force);
    crate::jsonc_lexemes::lemma_close(d, o, inner, x, tail, force, close, level, b);
    let out = d.indent(d.newline_and_blank(r.0, r.2, close), level).push(b);
    lemma_line_start(d, r.0, r.2, close, level);
    let x2 = d.indent(d.newline_and_blank(r.0, r.2, close), level);
    lemma_pre_push(x2, b);
    lemma_pre_trans(r.0, x2, out);
    if dangles(r.0, d.t, cover(d, x, close), ps) {
        lemma_dangle_column(r.0, d.t, cover(d, x, close), ps, o.len() as int);
        lemma_nl_closes(d, r.0, r.2, close, level, out);
    }
    lemma_ranges_pre(r.0, out, d.t, cover(d, x, close), ps, o.len() as int);
    lemma_no_dangle_longer(r.0, out, d.t, cover(d, x, close), ps, o.len() as int);
    ps
}

proof fn lemma_ml_array(d: Doc, o: Seq<u8>, level: int, i: int) -> (ps: Seq<int>)
    requires
        doc_ok(d),
        0 <= i < d.ev.len(),
        d.ev[i].kind == JsonValueKind::Array,
    ensures
        pre(o, d.ml_array(o, level, i)),
        ranges_at(d.ml_array(o, level, i), d.t, cover(d, d.ev[i].start + 1, d.ev[i].end - 1), ps, o.len() as int),
        !dangles(d.ml_array(o, level, i), d.t, cover(d, d.ev[i].start + 1, d.ev[i].end - 1), ps),
    decreases d.ev.len() - i, 2int, 0int,
{
    lemma_container_cover(d, i);
    lemma_kids(d, i);
    lemma_bounds(d, i);
    lemma_value_edges(d, i);
    let open = d.ev[i].start;
    let close = d.ev[i].end - 1;
    let inner = crate::jsonc_layout::sat_add(level, 1);
    let o1 = o.push(0x5b);
    lemma_pre_push(o, 0x5b);
    let e = d.kids(i);
    if e.len() == 0 {
        let items = gap_items(d.t, d.cm, open + 1, close);
        lemma_gap_items(d, open + 1, close);
        lemma_gap_items_in(d, open + 1, close);
        let ps = lemma_ml_close(d, o1, inner, open + 1, close, items, true, level, 0x5d);
        let out = d.ml_array(o, level, i);
        lemma_pre_trans(o, o1, out);
        lemma_ranges_lower(out, d.t, cover(d, open + 1, close), ps, o.len() as int, o1.len() as int);
        ps
    } else {
        let ps1 = lemma_ml_elems(d, o1, inner, i, 0);
        let o2 = d.ml_elems(o1, inner, i, 0);
        let last_end = d.ev[e.last()].end;
        lemma_value_edges(d, e.last());
        let g = gap_items(d.t, d.cm, last_end, close);
        lemma_gap_items(d, last_end, close);
        lemma_gap_items_in(d, last_end, close);
        lemma_trailing(d, i, true, g);
        assert(d.t.len() <= usize::MAX) by {
            reveal(doc_ok);
        }
        lemma_trailing_in(d, i, true, g, last_end, close);
        let tail = d.trailing(i, true, g);
        let ps2 = lemma_ml_close(d, o2, inner, last_end, close, tail, false, level, 0x5d);
        let out = d.ml_array(o, level, i);
        lemma_pre_refl(o2);
        lemma_join(d, o2, o2, out, open + 1, last_end, close, ps1, ps2, o1.len() as int, o2.len() as int);
        lemma_pre_trans(o1, o2, out);
        lemma_pre_trans(o, o1, out);
        lemma_ranges_lower(out, d.t, cover(d, open + 1, close), ps1 + ps2, o.len() as int, o1.len() as int);
        ps1 + ps2
    }
}

proof fn lemma_ml_elems(d: Doc, o: Seq<u8>, inner: int, i: int, k: int) -> (ps: Seq<int>)
    requires
        doc_ok(d),
        0 <= i < d.ev.len(),
        0 <= k <= d.kids(i).len(),
        !is_scalar(d.ev[i]),
    ensures
        pre(o, d.ml_elems(o, inner, i, k)),
        ranges_at(d.ml_elems(o, inner, i, k), d.t, cover(d, elem_gap(d, i, k), kids_end(d, i)), ps, o.len() as int),
        !dangles(d.ml_elems(o, inner, i, k), d.t, cover(d, elem_gap(d, i, k), kids_end(d, i)), ps),
        elem_gap(d, i, k) <= kids_end(d, i),
    decreases d.ev.len() - i, 1int, d.kids(i).len() - k,
{
    lemma_kids(d, i);
    lemma_bounds(d, i);
    let e = d.kids(i);
    if k == e.len() {
        lemma_pre_refl(o);
        lemma_sa(d, elem_gap(d, i, k));
        lemma_cover_empty(d, elem_gap(d, i, k), kids_end(d, i));
        lemma_ranges_empty(o, d.t, o.len() as int);
        seq![]
    } else {
        let c = e[k];
        let pe = elem_gap(d, i, k);
        let cs = d.ev[c].start;
        let ce = d.ev[c].end;
        if k > 0 {
            let k1 = k - 1;
            assert(d.ev[e[k1]].end < d.ev[e[k1 + 1]].start);
            lemma_value_edges(d, e[k1]);
        } else {
            lemma_value_edges(d, i);
        }
        lemma_kid_ends(d, i, k, e.len() - 1);
        lemma_bounds(d, c);
        let items = gap_items(d.t, d.cm, pe, cs);
        lemma_gap_items(d, pe, cs);
        lemma_gap_items_in(d, pe, cs);
        let ps1 = lemma_gap(d, o, inner, pe, items, false, k == 0, cs);
        let r = d.gap(o, inner, pe, items, false, k == 0);
        lemma_line_start(d, r.0, r.2, cs, inner);
        let o2 = d.indent(d.newline_and_blank(r.0, r.2, cs), inner);
        let ps2 = lemma_value(d, o2, inner, c);
        let o3 = d.value(o2, inner, c);
        let ps3 = lemma_ml_elems(d, o3, inner, i, k + 1);
        let out = d.ml_elems(o3, inner, i, k + 1);
        assert(elem_gap(d, i, k + 1) == ce);
        lemma_pre_refl(o3);
        lemma_join(d, o3, o3, out, cs, ce, kids_end(d, i), ps2, ps3, o2.len() as int, o3.len() as int);
        lemma_pre_trans(o2, o3, out);
        if dangles(r.0, d.t, cover(d, pe, cs), ps1) {
            lemma_dangle_column(r.0, d.t, cover(d, pe, cs), ps1, o.len() as int);
            lemma_nl_closes(d, r.0, r.2, cs, inner, out);
        }
        lemma_join(d, r.0, o2, out, pe, cs, kids_end(d, i), ps1, ps2 + ps3, o.len() as int, o2.len() as int);
        lemma_pre_trans(o, r.0, out);
        ps1 + (ps2 + ps3)
    }
}

/// Where the gap before the `k`-th member of object `i` begins when each member has its
/// own line: after `{`, or after the member before.
spec fn member_gap(d: Doc, i: int, k: int) -> int {
    if k == 0 {
        d.ev[i].start + 1
    } else {
        d.ev[d.members(i)[k - 1].1].end
    }
}

/// Where the gap before the `k`-th member of object `i` begins when the object is on
/// one line: at the first member, or after the member before.
spec fn member_gap_inline(d: Doc, i: int, k: int) -> int {
    if k == 0 {
        d.ev[d.members(i)[0].0].start
    } else {
        d.ev[d.members(i)[k - 1].1].end
    }
}

/// Object `i` has two children for each member.
proof fn lemma_member_count(d: Doc, i: int)
    requires
        doc_ok(d),
        0 <= i < d.ev.len(),
        d.ev[i].kind == JsonValueKind::Object,
    ensures
        d.kids(i).len() == 2 * d.members(i).len(),
{
    reveal(doc_ok);
    crate::jsonc_lexemes::lemma_member(d, i, 0);
}

/// Member `k` of object `i`: its name and value lie in order after the member before,
/// and the value ends by the end of the last child.
proof fn lemma_member_order(d: Doc, i: int, k: int)
    requires
        doc_ok(d),
        0 <= i < d.ev.len(),
        d.ev[i].kind == JsonValueKind::Object,
        0 <= k < d.members(i).len(),
    ensures
        ({
            let m = d.members(i);
            let key = m[k].0;
            let v = m[k].1;
            &&& i < key < d.ev.len()
            &&& i < v < d.ev.len()
            &&& is_scalar(d.ev[key])
            &&& member_gap(d, i, k) <= d.ev[key].start
            &&& member_gap_inline(d, i, k) <= d.ev[key].start
            &&& d.ev[key].start < d.ev[key].end < d.ev[v].start < d.ev[v].end <= kids_end(d, i)
            &&& member_gap(d, i, k + 1) == d.ev[v].end
            &&& member_gap_inline(d, i, k + 1) == d.ev[v].end
            &&& d.kids(i).len() > 0
            &&& kids_end(d, i) <= d.ev[i].end - 1
            &&& d.ev[i].end <= d.t.len()
        }),
{
    reveal(doc_ok);
    lemma_kids(d, i);
    crate::jsonc_lexemes::lemma_member(d, i, k);
    crate::jsonc_lexemes::lemma_member(d, i, 0);
    let e = d.kids(i);
    let m = d.members(i);
    let j0 = 2 * k;
    assert(d.ev[e[j0]].end < d.ev[e[j0 + 1]].start);
    if k > 0 {
        crate::jsonc_lexemes::lemma_member(d, i, k - 1);
        let j = 2 * k - 1;
        assert(d.ev[e[j]].end < d.ev[e[j + 1]].start);
    }
    lemma_kid_ends(d, i, 2 * k + 1, e.len() - 1);
    assert(e.last() == e[e.len() - 1]);
    assert(entry_in(d.t, d.ev, i, d.ev.len() as int));
}

proof fn lemma_ml_object(d: Doc, o: Seq<u8>, level: int, i: int) -> (ps: Seq<int>)
    requires
        doc_ok(d),
        0 <= i < d.ev.len(),
        d.ev[i].kind == JsonValueKind::Object,
    ensures
        pre(o, d.ml_object(o, level, i)),
        ranges_at(d.ml_object(o, level, i), d.t, cover(d, d.ev[i].start + 1, d.ev[i].end - 1), ps, o.len() as int),
        !dangles(d.ml_object(o, level, i), d.t, cover(d, d.ev[i].start + 1, d.ev[i].end - 1), ps),
    decreases d.ev.len() - i, 2int, 0int,
{
    lemma_container_cover(d, i);
    lemma_kids(d, i);
    lemma_member_count(d, i);
    lemma_bounds(d, i);
    lemma_value_edges(d, i);
    let open = d.ev[i].start;
    let close = d.ev[i].end - 1;
    let inner = crate::jsonc_layout::sat_add(level, 1);
    let o1 = o.push(0x7b);
    lemma_pre_push(o, 0x7b);
    let m = d.members(i);
    if m.len() == 0 {
        let items = gap_items(d.t, d.cm, open + 1, close);
        lemma_gap_items(d, open + 1, close);
        lemma_gap_items_in(d, open + 1, close);
        let ps = lemma_ml_close(d, o1, inner, open + 1, close, items, true, level, 0x7d);
        let out = d.ml_object(o, level, i);
        lemma_pre_trans(o, o1, out);
        lemma_ranges_lower(out, d.t, cover(d, open + 1, close), ps, o.len() as int, o1.len() as int);
        ps
    } else {
        lemma_member_order(d, i, m.len() - 1);
        let ps1 = lemma_ml_members(d, o1, inner, i, 0);
        let o2 = d.ml_members(o1, inner, i, 0);
        let last_end = d.ev[m.last().1].end;
        assert(member_gap(d, i, m.len() as int) == last_end);
        let g = gap_items(d.t, d.cm, last_end, close);
        lemma_gap_items(d, last_end, close);
        lemma_gap_items_in(d, last_end, close);
        lemma_value_edges(d, m.last().1);
        lemma_trailing(d, i, true, g);
        assert(d.t.len() <= usize::MAX) by {
            reveal(doc_ok);
        }
        lemma_trailing_in(d, i, true, g, last_end, close);
        let tail = d.trailing(i, true, g);
        let ps2 = lemma_ml_close(d, o2, inner, last_end, close, tail, false, level, 0x7d);
        let out = d.ml_object(o, level, i);
        lemma_pre_refl(o2);
        lemma_join(d, o2, o2, out, open + 1, last_end, close, ps1, ps2, o1.len() as int, o2.len() as int);
        lemma_pre_trans(o1, o2, out);
        lemma_pre_trans(o, o1, out);
        lemma_ranges_lower(out, d.t, cover(d, open + 1, close), ps1 + ps2, o.len() as int, o1.len() as int);
        ps1 + ps2
    }
}

proof fn lemma_ml_members(d: Doc, o: Seq<u8>, inner: int, i: int, k: int) -> (ps: Seq<int>)
    requires
        doc_ok(d),
        0 <= i < d.ev.len(),
        d.ev[i].kind == JsonValueKind::Object,
        0 <= k <= d.members(i).len(),
    ensures
        pre(o, d.ml_members(o, inner, i, k)),
        ranges_at(d.ml_members(o, inner, i, k), d.t, cover(d, member_gap(d, i, k), kids_end(d, i)), ps, o.len() as int),
        !dangles(d.ml_members(o, inner, i, k), d.t, cover(d, member_gap(d, i, k), kids_end(d, i)), ps),
        member_gap(d, i, k) <= kids_end(d, i),
    decreases d.ev.len() - i, 1int, d.members(i).len() - k,
{
    lemma_kids(d, i);
    lemma_member_count(d, i);
    lemma_bounds(d, i);
    let m = d.members(i);
    let ke_all = kids_end(d, i);
    if k == m.len() {
        lemma_pre_refl(o);
        if k > 0 {
            lemma_member_order(d, i, k - 1);
            assert(m[k - 1].1 == d.kids(i).last());
        }
        lemma_sa(d, member_gap(d, i, k));
        lemma_cover_empty(d, member_gap(d, i, k), ke_all);
        lemma_ranges_empty(o, d.t, o.len() as int);
        seq![]
    } else {
        lemma_member_order(d, i, k);
        let key = m[k].0;
        let v = m[k].1;
        let ks = d.ev[key].start;
        let kend = d.ev[key].end;
        let vs = d.ev[v].start;
        let ve = d.ev[v].end;
        let pe = member_gap(d, i, k);
        let (psa, r) = lemma_member_head(d, o, inner, i, k);
        let ol = d.indent(d.newline_and_blank(r.0, r.2, ks), inner);
        let o2 = ol + d.t.subrange(ks, kend);
        lemma_pre_add(ol, d.t.subrange(ks, kend));
        let (psb, r2, o3) = lemma_member_colon(d, o2, inner, i, k);
        let psc = lemma_value(d, o3, inner, v);
        let o4 = d.value(o3, inner, v);
        let psd = lemma_ml_members(d, o4, inner, i, k + 1);
        let out = d.ml_members(o4, inner, i, k + 1);
        lemma_pre_refl(o4);
        lemma_join(d, o4, o4, out, vs, ve, ke_all, psc, psd, o3.len() as int, o4.len() as int);
        lemma_pre_trans(o3, o4, out);
        if dangles(r2.0, d.t, cover(d, kend, vs), psb) {
            lemma_nl_closes(d, r2.0, r2.2, vs, inner, out);
        }
        lemma_join(d, r2.0, o3, out, kend, vs, ke_all, psb, psc + psd, o2.len() as int, o3.len() as int);
        lemma_scalar_cover(d, key);
        lemma_cover_empty(d, ks, kend);
        lemma_cover_concat(d, ks, kend, ke_all);
        assert(cover(d, ks, kend) + cover(d, kend, ke_all) =~= cover(d, kend, ke_all));
        lemma_pre_trans(r.0, ol, o2);
        lemma_pre_trans(o2, r2.0, out);
        lemma_pre_trans(ol, o2, out);
        if dangles(r.0, d.t, cover(d, pe, ks), psa) {
            lemma_dangle_column(r.0, d.t, cover(d, pe, ks), psa, o.len() as int);
            lemma_nl_closes(d, r.0, r.2, ks, inner, out);
        }
        lemma_join(d, r.0, o2, out, pe, ks, ke_all, psa, psb + (psc + psd), o.len() as int, o2.len() as int);
        lemma_pre_trans(o, r.0, out);
        psa + (psb + (psc + psd))
    }
}

/// The gap before the name of member `k` of an object laid out with a line per member.
proof fn lemma_member_head(d: Doc, o: Seq<u8>, inner: int, i: int, k: int) -> (res: (Seq<int>, (Seq<u8>, int, int)))
    requires
        doc_ok(d),
        0 <= i < d.ev.len(),
        d.ev[i].kind == JsonValueKind::Object,
        0 <= k < d.members(i).len(),
    ensures
        ({
            let ks = d.ev[d.members(i)[k].0].start;
            let pe = member_gap(d, i, k);
            let items = gap_items(d.t, d.cm, pe, ks);
            let r = d.gap(o, inner, pe, items, false, k == 0);
            &&& res.1 == r
            &&& pre(o, r.0)
            &&& ranges_at(r.0, d.t, cover(d, pe, ks), res.0, o.len() as int)
            &&& pre(r.0, d.indent(d.newline_and_blank(r.0, r.2, ks), inner))
        }),
{
    lemma_member_order(d, i, k);
    lemma_bounds(d, i);
    let m = d.members(i);
    let ks = d.ev[m[k].0].start;
    let pe = member_gap(d, i, k);
    lemma_bounds(d, m[k].0);
    if k == 0 {
        lemma_value_edges(d, i);
    } else {
        lemma_member_order(d, i, k - 1);
        lemma_bounds(d, m[k - 1].1);
        lemma_value_edges(d, m[k - 1].1);
    }
    let items = gap_items(d.t, d.cm, pe, ks);
    lemma_gap_items(d, pe, ks);
    lemma_gap_items_in(d, pe, ks);
    let ps = lemma_gap(d, o, inner, pe, items, false, k == 0, ks);
    let r = d.gap(o, inner, pe, items, false, k == 0);
    lemma_line_start(d, r.0, r.2, ks, inner);
    (ps, r)
}

/// The gap between the name and the value of member `k`, and how the value is set off
/// after it: a line comment there ends its line.
proof fn lemma_member_colon(d: Doc, o2: Seq<u8>, inner: int, i: int, k: int) -> (res: (Seq<int>, (Seq<u8>, int, int), Seq<u8>))
    requires
        doc_ok(d),
        0 <= i < d.ev.len(),
        d.ev[i].kind == JsonValueKind::Object,
        0 <= k < d.members(i).len(),
    ensures
        ({
            let kend = d.ev[d.members(i)[k].0].end;
            let vs = d.ev[d.members(i)[k].1].start;
            let items2 = gap_items(d.t, d.cm, kend, vs);
            let r2 = d.gap(o2, inner, kend, items2, false, false);
            let vline = crate::jsonc_layout::line_breaks(d.t, d.cm, kend, vs);
            let o3 = if vline > r2.1 {
                d.indent(d.newline_and_blank(r2.0, r2.2, vs), inner)
            } else if crate::jsonc_format::column(r2.0) != 0 {
                r2.0.push(0x20)
            } else {
                r2.0
            };
            &&& res.1 == r2
            &&& res.2 == o3
            &&& pre(o2, r2.0)
            &&& pre(r2.0, o3)
            &&& ranges_at(r2.0, d.t, cover(d, kend, vs), res.0, o2.len() as int)
            &&& dangles(r2.0, d.t, cover(d, kend, vs), res.0) ==> crate::jsonc_format::column(r2.0) != 0
                && o3 == d.indent(d.newline_and_blank(r2.0, r2.2, vs), inner)
        }),
{
    lemma_member_order(d, i, k);
    let m = d.members(i);
    let key = m[k].0;
    let v = m[k].1;
    let kend = d.ev[key].end;
    let vs = d.ev[v].start;
    lemma_bounds(d, i);
    lemma_bounds(d, key);
    lemma_bounds(d, v);
    lemma_value_edges(d, key);
    lemma_value_edges(d, v);
    let items2 = gap_items(d.t, d.cm, kend, vs);
    lemma_gap_items(d, kend, vs);
    lemma_gap_items_in(d, kend, vs);
    let psb = lemma_gap(d, o2, inner, kend, items2, false, false, vs);
    let r2 = d.gap(o2, inner, kend, items2, false, false);
    let vline = crate::jsonc_layout::line_breaks(d.t, d.cm, kend, vs);
    let o3 = if vline > r2.1 {
        d.indent(d.newline_and_blank(r2.0, r2.2, vs), inner)
    } else if crate::jsonc_format::column(r2.0) != 0 {
        r2.0.push(0x20)
    } else {
        r2.0
    };
    lemma_line_start(d, r2.0, r2.2, vs, inner);
    lemma_pre_push(r2.0, 0x20);
    lemma_pre_refl(r2.0);
    if dangles(r2.0, d.t, cover(d, kend, vs), psb) {
        lemma_dangle_column(r2.0, d.t, cover(d, kend, vs), psb, o2.len() as int);
        let n = items2.len() - 1;
        assert(items2[n] == items2.last());
        let q = choose|q: int|
            0 <= q < d.cm.len() && (#[trigger] d.cm[q]).0 == items2[n]->Comment_0 as int && d.cm[q].1
                == items2[n]->Comment_1 as int;
        assert(is_line_comment(d, q));
        lemma_line_after(d, kend, q, vs);
    }
    (psb, r2, o3)
}

proof fn lemma_sl_array(d: Doc, o: Seq<u8>, level: int, i: int) -> (ps: Seq<int>)
    requires
        doc_ok(d),
        0 <= i < d.ev.len(),
        d.ev[i].kind == JsonValueKind::Array,
        !d.multiline(i),
    ensures
        pre(o, d.sl_array(o, level, i)),
        ranges_at(d.sl_array(o, level, i), d.t, cover(d, d.ev[i].start + 1, d.ev[i].end - 1), ps, o.len() as int),
        !dangles(d.sl_array(o, level, i), d.t, cover(d, d.ev[i].start + 1, d.ev[i].end - 1), ps),
    decreases d.ev.len() - i, 2int, 0int,
{
    lemma_container_cover(d, i);
    lemma_kids(d, i);
    lemma_bounds(d, i);
    let open = d.ev[i].start;
    let close = d.ev[i].end - 1;
    let o1 = o.push(0x5b);
    lemma_pre_push(o, 0x5b);
    let e = d.kids(i);
    let out = d.sl_array(o, level, i);
    if e.len() == 0 {
        let head = gap_items(d.t, d.cm, open + 1, close);
        lemma_gap_items(d, open + 1, close);
        assert(head.subrange(0, head.len() as int) =~= head);
        if head.len() == 0 {
            assert(comments_in(head) =~= Seq::<(int, int)>::empty());
            assert(cover(d, open + 1, close) =~= Seq::<(int, int)>::empty());
            lemma_pre_push(o1, 0x5d);
            lemma_pre_trans(o, o1, out);
            lemma_ranges_empty(out, d.t, o.len() as int);
            seq![]
        } else {
            lemma_pre_push(o1, 0x20);
            lemma_gap_items_in(d, open + 1, close);
            lemma_no_lc(d, i, head, open + 1, close);
            let ps = lemma_gap_comments_from(d, o1.push(0x20), head, 0, true);
            let g = d.gap_comments_from(o1.push(0x20), head, 0, true);
            lemma_pre_push(g, 0x5d);
            lemma_ranges_pre(g, out, d.t, cover(d, open + 1, close), ps, (o1.len() + 1) as int);
            lemma_pre_trans(o1, o1.push(0x20), g);
            lemma_pre_trans(o1, g, out);
            lemma_pre_trans(o, o1, out);
            lemma_ranges_lower(out, d.t, cover(d, open + 1, close), ps, o.len() as int, (o1.len() + 1) as int);
            ps
        }
    } else {
        let e0s = d.ev[e[0]].start;
        let head = gap_items(d.t, d.cm, open + 1, e0s);
        lemma_gap_items(d, open + 1, e0s);
        assert(head.subrange(0, head.len() as int) =~= head);
        lemma_gap_items_in(d, open + 1, e0s);
        lemma_no_lc(d, i, head, open + 1, e0s);
        let psa = lemma_gap_comments_from(d, o1, head, 0, false);
        let o2 = d.gap_comments_from(o1, head, 0, false);
        let psb = lemma_sl_elems(d, o2, level, i, 0, head.len() > 0);
        let o3 = d.sl_elems(o2, level, i, 0, head.len() > 0);
        let last_end = d.ev[e.last()].end;
        let g = gap_items(d.t, d.cm, last_end, close);
        lemma_gap_items(d, last_end, close);
        lemma_trailing(d, i, false, g);
        let tail = d.trailing(i, false, g);
        assert(tail.subrange(0, tail.len() as int) =~= tail);
        lemma_gap_items_in(d, last_end, close);
        assert(d.t.len() <= usize::MAX) by {
            reveal(doc_ok);
        }
        lemma_trailing_in(d, i, false, g, last_end, close);
        lemma_no_lc(d, i, tail, last_end, close);
        let psc = lemma_inline_from(d, o3, tail, 0);
        let o4 = d.inline_from(o3, tail, 0);
        lemma_pre_push(o4, 0x5d);
        lemma_ranges_pre(o4, out, d.t, cover(d, last_end, close), psc, o3.len() as int);
        lemma_pre_trans(o3, o4, out);
        lemma_pre_refl(o3);
        lemma_join(d, o3, o3, out, e0s, last_end, close, psb, psc, o2.len() as int, o3.len() as int);
        lemma_pre_trans(o2, o3, out);
        lemma_pre_refl(o2);
        lemma_join(d, o2, o2, out, open + 1, e0s, close, psa, psb + psc, o1.len() as int, o2.len() as int);
        lemma_pre_trans(o1, o2, out);
        lemma_pre_trans(o, o1, out);
        lemma_ranges_lower(out, d.t, cover(d, open + 1, close), psa + (psb + psc), o.len() as int, o1.len() as int);
        psa + (psb + psc)
    }
}

proof fn lemma_sl_elems(d: Doc, o: Seq<u8>, level: int, i: int, k: int, head: bool) -> (ps: Seq<int>)
    requires
        doc_ok(d),
        0 <= i < d.ev.len(),
        0 <= k <= d.kids(i).len(),
        d.kids(i).len() > 0,
        !is_scalar(d.ev[i]),
        !d.multiline(i),
    ensures
        pre(o, d.sl_elems(o, level, i, k, head)),
        ranges_at(d.sl_elems(o, level, i, k, head), d.t, cover(d, elem_gap_inline(d, i, k), kids_end(d, i)), ps, o.len() as int),
        !dangles(d.sl_elems(o, level, i, k, head), d.t, cover(d, elem_gap_inline(d, i, k), kids_end(d, i)), ps),
        elem_gap_inline(d, i, k) <= kids_end(d, i),
    decreases d.ev.len() - i, 1int, d.kids(i).len() - k,
{
    lemma_kids(d, i);
    lemma_bounds(d, i);
    let e = d.kids(i);
    let ke_all = kids_end(d, i);
    if k == e.len() {
        lemma_pre_refl(o);
        lemma_sa(d, elem_gap_inline(d, i, k));
        lemma_cover_empty(d, elem_gap_inline(d, i, k), ke_all);
        lemma_ranges_empty(o, d.t, o.len() as int);
        seq![]
    } else {
        let c = e[k];
        let q = elem_gap_inline(d, i, k);
        let cs = d.ev[c].start;
        let ce = d.ev[c].end;
        if k > 0 {
            let k1 = k - 1;
            assert(d.ev[e[k1]].end < d.ev[e[k1 + 1]].start);
        }
        lemma_kid_ends(d, i, k, e.len() - 1);
        let o1 = if k > 0 {
            d.inline_from(o, gap_items(d.t, d.cm, d.ev[e[k - 1]].end, cs), 0).push(0x20)
        } else if head {
            o.push(0x20)
        } else {
            o
        };
        lemma_pre_refl(o);
        lemma_pre_push(o, 0x20);
        let psa = if k > 0 {
            let items = gap_items(d.t, d.cm, q, cs);
            lemma_gap_items(d, q, cs);
            assert(items.subrange(0, items.len() as int) =~= items);
            lemma_gap_items_in(d, q, cs);
            lemma_no_lc(d, i, items, q, cs);
            let psa = lemma_inline_from(d, o, items, 0);
            let oi = d.inline_from(o, items, 0);
            lemma_pre_push(oi, 0x20);
            lemma_ranges_pre(oi, o1, d.t, cover(d, q, cs), psa, o.len() as int);
            lemma_no_dangle_longer(oi, o1, d.t, cover(d, q, cs), psa, o.len() as int);
            lemma_pre_trans(o, oi, o1);
            psa
        } else {
            lemma_sa(d, q);
            lemma_cover_empty(d, q, cs);
            lemma_ranges_empty(o1, d.t, o.len() as int);
            Seq::<int>::empty()
        };
        let psb = lemma_value(d, o1, level, c);
        let o3 = d.value(o1, level, c);
        let psc = lemma_sl_elems(d, o3, level, i, k + 1, head);
        let out = d.sl_elems(o3, level, i, k + 1, head);
        assert(elem_gap_inline(d, i, k + 1) == ce);
        lemma_pre_refl(o3);
        lemma_join(d, o3, o3, out, cs, ce, ke_all, psb, psc, o1.len() as int, o3.len() as int);
        lemma_pre_trans(o1, o3, out);
        lemma_pre_refl(o1);
        lemma_join(d, o1, o1, out, q, cs, ke_all, psa, psb + psc, o.len() as int, o1.len() as int);
        lemma_pre_trans(o, o1, out);
        psa + (psb + psc)
    }
}

proof fn lemma_sl_object(d: Doc, o: Seq<u8>, level: int, i: int) -> (ps: Seq<int>)
    requires
        doc_ok(d),
        0 <= i < d.ev.len(),
        d.ev[i].kind == JsonValueKind::Object,
        !d.multiline(i),
    ensures
        pre(o, d.sl_object(o, level, i)),
        ranges_at(d.sl_object(o, level, i), d.t, cover(d, d.ev[i].start + 1, d.ev[i].end - 1), ps, o.len() as int),
        !dangles(d.sl_object(o, level, i), d.t, cover(d, d.ev[i].start + 1, d.ev[i].end - 1), ps),
    decreases d.ev.len() - i, 2int, 0int,
{
    lemma_container_cover(d, i);
    lemma_kids(d, i);
    lemma_member_count(d, i);
    lemma_bounds(d, i);
    let open = d.ev[i].start;
    let close = d.ev[i].end - 1;
    let o1 = o.push(0x7b);
    lemma_pre_push(o, 0x7b);
    let m = d.members(i);
    let out = d.sl_object(o, level, i);
    if m.len() == 0 {
        let head = gap_items(d.t, d.cm, open + 1, close);
        lemma_gap_items(d, open + 1, close);
        assert(head.subrange(0, head.len() as int) =~= head);
        if head.len() == 0 {
            assert(comments_in(head) =~= Seq::<(int, int)>::empty());
            assert(cover(d, open + 1, close) =~= Seq::<(int, int)>::empty());
            lemma_pre_push(o1, 0x7d);
            lemma_pre_trans(o, o1, out);
            lemma_ranges_empty(out, d.t, o.len() as int);
            seq![]
        } else {
            lemma_pre_push(o1, 0x20);
            lemma_gap_items_in(d, open + 1, close);
            lemma_no_lc(d, i, head, open + 1, close);
            let ps = lemma_gap_comments_from(d, o1.push(0x20), head, 0, true);
            let g = d.gap_comments_from(o1.push(0x20), head, 0, true);
            lemma_pre_push(g, 0x7d);
            lemma_ranges_pre(g, out, d.t, cover(d, open + 1, close), ps, (o1.len() + 1) as int);
            lemma_pre_trans(o1, o1.push(0x20), g);
            lemma_pre_trans(o1, g, out);
            lemma_pre_trans(o, o1, out);
            lemma_ranges_lower(out, d.t, cover(d, open + 1, close), ps, o.len() as int, (o1.len() + 1) as int);
            ps
        }
    } else {
        lemma_member_order(d, i, 0);
        lemma_member_order(d, i, m.len() - 1);
        let e0s = d.ev[m[0].0].start;
        let head = gap_items(d.t, d.cm, open + 1, e0s);
        lemma_gap_items(d, open + 1, e0s);
        assert(head.subrange(0, head.len() as int) =~= head);
        lemma_gap_items_in(d, open + 1, e0s);
        lemma_no_lc(d, i, head, open + 1, e0s);
        let psa = lemma_gap_comments_from(d, o1, head, 0, false);
        let o2 = d.gap_comments_from(o1, head, 0, false);
        let psb = lemma_sl_members(d, o2, level, i, 0, head.len() > 0);
        let o3 = d.sl_members(o2, level, i, 0, head.len() > 0);
        let last_end = d.ev[m.last().1].end;
        assert(member_gap_inline(d, i, m.len() as int) == last_end);
        let g = gap_items(d.t, d.cm, last_end, close);
        lemma_gap_items(d, last_end, close);
        lemma_trailing(d, i, false, g);
        let tail = d.trailing(i, false, g);
        assert(tail.subrange(0, tail.len() as int) =~= tail);
        lemma_gap_items_in(d, last_end, close);
        assert(d.t.len() <= usize::MAX) by {
            reveal(doc_ok);
        }
        lemma_trailing_in(d, i, false, g, last_end, close);
        lemma_no_lc(d, i, tail, last_end, close);
        let psc = lemma_inline_from(d, o3, tail, 0);
        let o4 = d.inline_from(o3, tail, 0);
        lemma_pre_push(o4, 0x7d);
        lemma_ranges_pre(o4, out, d.t, cover(d, last_end, close), psc, o3.len() as int);
        lemma_pre_trans(o3, o4, out);
        lemma_pre_refl(o3);
        lemma_join(d, o3, o3, out, e0s, last_end, close, psb, psc, o2.len() as int, o3.len() as int);
        lemma_pre_trans(o2, o3, out);
        lemma_pre_refl(o2);
        lemma_join(d, o2, o2, out, open + 1, e0s, close, psa, psb + psc, o1.len() as int, o2.len() as int);
        lemma_pre_trans(o1, o2, out);
        lemma_pre_trans(o, o1, out);
        lemma_ranges_lower(out, d.t, cover(d, open + 1, close), psa + (psb + psc), o.len() as int, o1.len() as int);
        psa + (psb + psc)
    }
}

proof fn lemma_sl_members(d: Doc, o: Seq<u8>, level: int, i: int, k: int, head: bool) -> (ps: Seq<int>)
    requires
        doc_ok(d),
        0 <= i < d.ev.len(),
        d.ev[i].kind == JsonValueKind::Object,
        0 <= k <= d.members(i).len(),
        d.members(i).len() > 0,
        !d.multiline(i),
    ensures
        pre(o, d.sl_members(o, level, i, k, head)),
        ranges_at(d.sl_members(o, level, i, k, head), d.t, cover(d, member_gap_inline(d, i, k), kids_end(d, i)), ps, o.len() as int),
        !dangles(d.sl_members(o, level, i, k, head), d.t, cover(d, member_gap_inline(d, i, k), kids_end(d, i)), ps),
        member_gap_inline(d, i, k) <= kids_end(d, i),
    decreases d.ev.len() - i, 1int, d.members(i).len() - k,
{
    lemma_kids(d, i);
    lemma_member_count(d, i);
    lemma_bounds(d, i);
    let m = d.members(i);
    let ke_all = kids_end(d, i);
    if k == m.len() {
        lemma_pre_refl(o);
        lemma_member_order(d, i, k - 1);
        assert(m[k - 1].1 == d.kids(i).last());
        lemma_sa(d, member_gap_inline(d, i, k));
        lemma_cover_empty(d, member_gap_inline(d, i, k), ke_all);
        lemma_ranges_empty(o, d.t, o.len() as int);
        seq![]
    } else {
        lemma_member_order(d, i, k);
        let key = m[k].0;
        let v = m[k].1;
        let ks = d.ev[key].start;
        let kend = d.ev[key].end;
        let vs = d.ev[v].start;
        let ve = d.ev[v].end;
        let q = member_gap_inline(d, i, k);
        let o1 = if k > 0 {
            d.inline_from(o, gap_items(d.t, d.cm, d.ev[m[k - 1].1].end, ks), 0).push(0x20)
        } else if head {
            o.push(0x20)
        } else {
            o
        };
        lemma_pre_refl(o);
        lemma_pre_push(o, 0x20);
        let psa = if k > 0 {
            let items = gap_items(d.t, d.cm, q, ks);
            lemma_gap_items(d, q, ks);
            assert(items.subrange(0, items.len() as int) =~= items);
            lemma_gap_items_in(d, q, ks);
            lemma_no_lc(d, i, items, q, ks);
            let psa = lemma_inline_from(d, o, items, 0);
            let oi = d.inline_from(o, items, 0);
            lemma_pre_push(oi, 0x20);
            lemma_ranges_pre(oi, o1, d.t, cover(d, q, ks), psa, o.len() as int);
            lemma_no_dangle_longer(oi, o1, d.t, cover(d, q, ks), psa, o.len() as int);
            lemma_pre_trans(o, oi, o1);
            psa
        } else {
            lemma_sa(d, q);
            lemma_cover_empty(d, q, ks);
            lemma_ranges_empty(o1, d.t, o.len() as int);
            Seq::<int>::empty()
        };
        let o2 = o1 + d.t.subrange(ks, kend);
        lemma_pre_add(o1, d.t.subrange(ks, kend));
        let items2 = gap_items(d.t, d.cm, kend, vs);
        lemma_gap_items(d, kend, vs);
        assert(items2.subrange(0, items2.len() as int) =~= items2);
        lemma_gap_items_in(d, kend, vs);
        lemma_no_lc(d, i, items2, kend, vs);
        let psb = lemma_inline_from(d, o2, items2, 0);
        let ob = d.inline_from(o2, items2, 0);
        let o3 = ob.push(0x20);
        lemma_pre_push(ob, 0x20);
        lemma_ranges_pre(ob, o3, d.t, cover(d, kend, vs), psb, o2.len() as int);
        lemma_no_dangle_longer(ob, o3, d.t, cover(d, kend, vs), psb, o2.len() as int);
        lemma_pre_trans(o2, ob, o3);
        let psc = lemma_value(d, o3, level, v);
        let o4 = d.value(o3, level, v);
        let psd = lemma_sl_members(d, o4, level, i, k + 1, head);
        let out = d.sl_members(o4, level, i, k + 1, head);
        lemma_pre_refl(o4);
        lemma_join(d, o4, o4, out, vs, ve, ke_all, psc, psd, o3.len() as int, o4.len() as int);
        lemma_pre_trans(o3, o4, out);
        lemma_pre_refl(o3);
        lemma_join(d, o3, o3, out, kend, vs, ke_all, psb, psc + psd, o2.len() as int, o3.len() as int);
        lemma_scalar_cover(d, key);
        lemma_cover_empty(d, ks, kend);
        lemma_cover_concat(d, ks, kend, ke_all);
        assert(cover(d, ks, kend) + cover(d, kend, ke_all) =~= cover(d, kend, ke_all));
        lemma_pre_trans(o2, o3, out);
        lemma_pre_trans(o1, o2, out);
        lemma_pre_refl(o1);
        lemma_join(d, o1, o2, out, q, ks, ke_all, psa, psb + (psc + psd), o.len() as int, o2.len() as int);
        lemma_pre_trans(o, o1, out);
        psa + (psb + (psc + psd))
    }
}

/// The comments before the root value, and how the root is set off after them: a line
/// comment there ends its line.
proof fn lemma_root_head(d: Doc) -> (res: (Seq<int>, (Seq<u8>, int, int), Seq<u8>))
    requires
        doc_ok(d),
    ensures
        ({
            let rs = d.ev[0].start;
            let fa = split_at(d.cm, rs, false);
            let leading = comments_from(d.cm, 0, fa, 0);
            let r = d.gap(seq![], 0, 0, leading, true, false);
            let root_line = crate::jsonc_layout::line_breaks(d.t, d.cm, 0, rs);
            let o1 = if root_line > r.1 {
                let x = r.0.push(0x0a);
                if crate::jsonc_layout::has_blank(d.t, d.cm, r.2, rs) {
                    x.push(0x0a)
                } else {
                    x
                }
            } else if crate::jsonc_format::column(r.0) != 0 {
                r.0.push(0x20)
            } else {
                r.0
            };
            &&& res.1 == r
            &&& res.2 == o1
            &&& fa == sa(d, rs)
            &&& pre(r.0, o1)
            &&& ranges_at(r.0, d.t, cover(d, 0, rs), res.0, 0)
            &&& dangles(r.0, d.t, cover(d, 0, rs), res.0) ==> o1.len() > r.0.len() && o1[r.0.len() as int] == 0x0a
        }),
{
    reveal(doc_ok);
    let t = d.t;
    let cm = d.cm;
    let ev = d.ev;
    lemma_bounds(d, 0);
    let rs = ev[0].start;
    lemma_split_from(t, cm, rs, 0);
    let fa = split_at(cm, rs, false);
    assert(splits(cm, rs, false, fa));
    assert(splits(cm, rs, true, fa)) by {
        assert forall|q: int| 0 <= q < fa implies comment_before(cm, q, rs, true) by {
            assert(comment_before(cm, q, rs, false));
            assert(comment_ok(t, cm[q].0, cm[q].1));
        }
        assert forall|q: int| fa <= q < cm.len() implies !comment_before(cm, q, rs, true) by {
            assert(!comment_before(cm, q, rs, false));
            assert(cm[q].1 <= ev[0].start || cm[q].0 >= ev[0].start);
        }
    }
    lemma_split_at(cm, rs, true, fa);
    assert(splits(cm, 0, true, 0)) by {
        assert forall|q: int| 0 <= q < cm.len() implies !comment_before(cm, q, 0, true) by {
            assert(comment_ok(t, cm[q].0, cm[q].1));
        }
    }
    lemma_split_at(cm, 0, true, 0);
    assert(no_straddle(d, 0)) by {
        assert forall|q: int| 0 <= q < cm.len() implies !(#[trigger] cm[q].0 < 0 < cm[q].1) by {
            assert(comment_ok(t, cm[q].0, cm[q].1));
        }
    }
    let leading = comments_from(cm, 0, fa, 0);
    lemma_comments_from(d, 0, fa, 0);
    assert forall|q: int| 0 <= q < fa && #[trigger] cm[q].0 >= 0 implies cm[q].0 <= rs by {
        assert(comment_before(cm, q, rs, true));
    }
    lemma_comments_from_in(d, 0, fa, 0, 0, rs);
    assert(comments_in(leading) == cm.subrange(0, fa));
    let ps1 = lemma_gap(d, seq![], 0, 0, leading, true, false, rs);
    let r = d.gap(seq![], 0, 0, leading, true, false);
    let root_line = crate::jsonc_layout::line_breaks(t, cm, 0, rs);
    let o1 = if root_line > r.1 {
        let x = r.0.push(0x0a);
        if crate::jsonc_layout::has_blank(t, cm, r.2, rs) {
            x.push(0x0a)
        } else {
            x
        }
    } else if crate::jsonc_format::column(r.0) != 0 {
        r.0.push(0x20)
    } else {
        r.0
    };
    lemma_pre_refl(r.0);
    lemma_pre_push(r.0, 0x0a);
    lemma_pre_push(r.0.push(0x0a), 0x0a);
    lemma_pre_trans(r.0, r.0.push(0x0a), r.0.push(0x0a).push(0x0a));
    lemma_pre_push(r.0, 0x20);
    if dangles(r.0, t, cover(d, 0, rs), ps1) {
        lemma_dangle_column(r.0, t, cover(d, 0, rs), ps1, 0);
        let n = leading.len() - 1;
        assert(leading[n] == leading.last());
        let q = choose|q: int|
            0 <= q < cm.len() && (#[trigger] cm[q]).0 == leading[n]->Comment_0 as int && cm[q].1
                == leading[n]->Comment_1 as int;
        assert(is_line_comment(d, q));
        lemma_value_edges(d, 0);
        lemma_line_after(d, 0, q, rs);
        if crate::jsonc_layout::has_blank(t, cm, r.2, rs) {
            assert(o1[r.0.len() as int] == r.0.push(0x0a)[r.0.len() as int]);
        }
    }
    (ps1, r, o1)
}

/// The JSONC formatter keeps every comment, in order, and sets it off: whatever the
/// settings, the text it lays out for an accepted input holds, for each comment of the
/// input in turn, the first line of that comment byte for byte (a line comment whole,
/// less the carriage return of a CRLF that ends it), in the order of the input and
/// without overlap, each at the start of the text or after a space or a line feed; and
/// each line comment is followed by a line feed or ends the text.
pub proof fn lemma_layout_keeps_comments(f: JsoncFormatter, t: Seq<u8>)
    requires
        parse_text(t, true) is Ok,
        t.len() <= usize::MAX,
    ensures
        ({
            let (ev, cm) = parse_text(t, true)->Ok_0;
            exists|ps: Seq<int>| ranges_at(Doc { t, cm, ev, f }.layout(), t, first_lines(t, cm), ps, 0)
        }),
{
    let (ev, cm) = parse_text(t, true)->Ok_0;
    lemma_parse_text_wf(t, true);
    lemma_parse_text_spans(t, true);
    lemma_parse_text_comments(t, true);
    lemma_parse_text_apart(t, true);
    let d = Doc { t, cm, ev, f };
    assert(doc_ok(d)) by {
        reveal(doc_ok);
    }
    lemma_bounds(d, 0);
    lemma_value_edges(d, 0);
    let rs = ev[0].start;
    let re = ev[0].end;
    let tl = t.len() as int;
    let (ps1, r, o1) = lemma_root_head(d);
    let fa = split_at(cm, rs, false);
    lemma_sa(d, rs);
    assert(splits(cm, tl, true, cm.len() as int)) by {
        reveal(doc_ok);
        assert forall|q: int| 0 <= q < cm.len() implies comment_before(cm, q, tl, true) by {
            assert(comment_ok(t, cm[q].0, cm[q].1));
        }
    }
    lemma_split_at(cm, tl, true, cm.len() as int);
    assert(splits(cm, 0, true, 0)) by {
        reveal(doc_ok);
        assert forall|q: int| 0 <= q < cm.len() implies !comment_before(cm, q, 0, true) by {
            assert(comment_ok(t, cm[q].0, cm[q].1));
        }
    }
    lemma_split_at(cm, 0, true, 0);
    lemma_sa_mono(d, rs, re);
    let ps2 = lemma_value(d, o1, 0, 0);
    let o2 = d.value(o1, 0, 0);
    let trailing = comments_from(cm, fa, cm.len() as int, re);
    lemma_comments_from(d, fa, cm.len() as int, re);
    lemma_sa(d, re);
    assert forall|q: int| fa <= q < cm.len() && #[trigger] cm[q].0 >= re implies cm[q].0 <= tl by {
        reveal(doc_ok);
        assert(comment_ok(t, cm[q].0, cm[q].1));
    }
    lemma_comments_from_in(d, fa, cm.len() as int, re, re, tl);
    assert(comments_in(trailing) == cm.subrange(sa(d, re), cm.len() as int));
    let ps3 = lemma_gap(d, o2, 0, re, trailing, false, false, tl);
    let out = d.gap(o2, 0, re, trailing, false, false).0;
    assert(out == d.layout());
    lemma_pre_refl(o2);
    lemma_join(d, o2, o2, out, rs, re, tl, ps2, ps3, o1.len() as int, o2.len() as int);
    lemma_pre_trans(o1, o2, out);
    if dangles(r.0, t, cover(d, 0, rs), ps1) {
        assert(out[r.0.len() as int] == out.subrange(0, o1.len() as int)[r.0.len() as int]);
    }
    lemma_join(d, r.0, o1, out, 0, rs, tl, ps1, ps2 + ps3, 0, o1.len() as int);
    assert(cm.subrange(0, cm.len() as int) =~= cm);
    assert(cover(d, 0, tl) == first_lines(t, cm));
    assert(ranges_at(out, t, first_lines(t, cm), ps1 + (ps2 + ps3), 0));
}

/// Comment `q` of the document is a line comment.
spec fn is_line_comment(d: Doc, q: int) -> bool {
    d.t[d.cm[q].0 + 1] == 0x2f
}

/// No comment runs over position `x`.
spec fn no_straddle(d: Doc, x: int) -> bool {
    forall|q: int| 0 <= q < d.cm.len() ==> !(#[trigger] d.cm[q].0 < x < d.cm[q].1)
}

proof fn lemma_lf_count_nonneg(t: Seq<u8>, q: int, e: int)
    ensures
        crate::jsonc_layout::lf_count(t, q, e) >= 0,
    decreases e - q,
{
    if e > q {
        lemma_lf_count_nonneg(t, q, e - 1);
    }
}

proof fn lemma_lines_nonneg(t: Seq<u8>, cm: Seq<(int, int)>, p: int, ci: int, pos: int)
    ensures
        crate::jsonc_layout::lines_from(t, cm, p, ci, pos) >= 0,
    decreases t.len() - p,
{
    if !(p < 0 || p >= pos || p >= t.len()) {
        if comment_starts(t, cm, ci, p) {
            lemma_lf_count_nonneg(t, p, cm[ci].1);
            lemma_lines_nonneg(t, cm, cm[ci].1, ci + 1, pos);
        } else if t[p] == 0x0d && p + 1 < t.len() && t[p + 1] == 0x0a {
            lemma_lines_nonneg(t, cm, p + 2, ci, pos);
        } else {
            lemma_lines_nonneg(t, cm, p + 1, ci, pos);
        }
    }
}

/// A line comment ends its input line: counted from `p`, a position after its end lies
/// on a later line than its start.
proof fn lemma_lines_step(d: Doc, p: int, ci: int, q: int, y: int)
    requires
        doc_ok(d),
        0 <= ci <= q < d.cm.len(),
        0 <= p <= d.cm[q].0,
        forall|k: int| ci <= k < d.cm.len() ==> #[trigger] d.cm[k].0 >= p,
        is_line_comment(d, q),
        d.cm[q].1 < y <= d.t.len(),
    ensures
        crate::jsonc_layout::lines_from(d.t, d.cm, p, ci, y) >= crate::jsonc_layout::lines_from(
            d.t,
            d.cm,
            p,
            ci,
            d.cm[q].0,
        ) + 1,
    decreases d.t.len() - p,
{
    reveal(doc_ok);
    let t = d.t;
    let cm = d.cm;
    let a = cm[q].0;
    let b = cm[q].1;
    assert(comment_ok(t, a, b));
    if p == a {
        if ci < q {
            assert(cm[ci].1 <= cm[q].0);
            assert(comment_ok(t, cm[ci].0, cm[ci].1));
        }
        assert(comment_starts(t, cm, q, a));
        lemma_lf_count_nonneg(t, a, b);
        if q + 1 < cm.len() {
            assert(cm[q].1 <= cm[q + 1].0);
            assert(comment_ok(t, cm[q + 1].0, cm[q + 1].1));
        }
        assert(t[b] == 0x0a);
        assert(!comment_starts(t, cm, q + 1, b));
        lemma_lines_nonneg(t, cm, b + 1, q + 1, y);
        assert(crate::jsonc_layout::lines_from(t, cm, b, q + 1, y) == 1
            + crate::jsonc_layout::lines_from(t, cm, b + 1, q + 1, y));
        assert(crate::jsonc_layout::lines_from(t, cm, a, q, y) == crate::jsonc_layout::lf_count(
            t,
            a,
            b,
        ) + crate::jsonc_layout::lines_from(t, cm, b, q + 1, y));
        assert(crate::jsonc_layout::lines_from(t, cm, a, q, a) == 0);
    } else {
        if comment_starts(t, cm, ci, p) {
            if ci == q {
                assert(false);
            }
            assert(cm[ci].1 <= cm[q].0);
            assert forall|k: int| ci + 1 <= k < cm.len() implies #[trigger] cm[k].0 >= cm[ci].1 by {
                assert(cm[ci].1 <= cm[k].0);
            }
            lemma_lines_step(d, cm[ci].1, ci + 1, q, y);
        } else {
            if ci < cm.len() {
                assert(comment_ok(t, cm[ci].0, cm[ci].1));
                assert(cm[ci].0 != p);
            }
            if t[p] == 0x0d && p + 1 < t.len() && t[p + 1] == 0x0a {
                if ci < cm.len() {
                    assert(cm[ci].0 != p + 1) by {
                        if cm[ci].0 == p + 1 {
                            assert(comment_ok(t, cm[ci].0, cm[ci].1));
                        }
                    }
                }
                assert forall|k: int| ci <= k < cm.len() implies #[trigger] cm[k].0 >= p + 2 by {
                    if k > ci {
                        assert(cm[ci].1 <= cm[k].0);
                        assert(comment_ok(t, cm[ci].0, cm[ci].1));
                    }
                }
                lemma_lines_step(d, p + 2, ci, q, y);
            } else {
                assert forall|k: int| ci <= k < cm.len() implies #[trigger] cm[k].0 >= p + 1 by {
                    if k > ci {
                        assert(cm[ci].1 <= cm[k].0);
                        assert(comment_ok(t, cm[ci].0, cm[ci].1));
                    }
                }
                lemma_lines_step(d, p + 1, ci, q, y);
            }
        }
    }
}

/// After a line comment, a later position of its gap lies on a later input line.
proof fn lemma_line_after(d: Doc, s: int, q: int, y: int)
    requires
        doc_ok(d),
        0 <= q < d.cm.len(),
        0 <= s <= d.cm[q].0,
        no_straddle(d, s),
        is_line_comment(d, q),
        d.cm[q].1 < y <= d.t.len(),
    ensures
        crate::jsonc_layout::line_breaks(d.t, d.cm, s, y) > crate::jsonc_layout::line_breaks(
            d.t,
            d.cm,
            s,
            d.cm[q].0,
        ),
{
    reveal(doc_ok);
    let cm = d.cm;
    lemma_split_from(d.t, cm, s, 0);
    let ci = split_at(cm, s, false);
    assert(splits(cm, s, false, ci));
    assert(comment_ok(d.t, cm[q].0, cm[q].1));
    assert(!comment_before(cm, q, s, false));
    assert forall|k: int| ci <= k < cm.len() implies #[trigger] cm[k].0 >= s by {
        assert(!comment_before(cm, k, s, false));
        assert(comment_ok(d.t, cm[k].0, cm[k].1));
    }
    lemma_lines_step(d, s, ci, q, y);
}

/// A line comment that ends inside `[p, end)` makes the scan from `p` find a line break.
proof fn lemma_newline_found(d: Doc, p: int, ci: int, q: int, end: int)
    requires
        doc_ok(d),
        0 <= ci <= q < d.cm.len(),
        0 <= p <= d.cm[q].0,
        forall|k: int| ci <= k < d.cm.len() ==> #[trigger] d.cm[k].0 >= p,
        is_line_comment(d, q),
        d.cm[q].1 < end <= d.t.len(),
    ensures
        crate::jsonc_layout::newline_from(d.t, d.cm, p, ci, end),
    decreases d.t.len() - p,
{
    reveal(doc_ok);
    let t = d.t;
    let cm = d.cm;
    let a = cm[q].0;
    let b = cm[q].1;
    assert(comment_ok(t, a, b));
    if p == a {
        if ci < q {
            assert(cm[ci].1 <= cm[q].0);
            assert(comment_ok(t, cm[ci].0, cm[ci].1));
        }
        assert(comment_starts(t, cm, q, a));
        if q + 1 < cm.len() {
            assert(cm[q].1 <= cm[q + 1].0);
            assert(comment_ok(t, cm[q + 1].0, cm[q + 1].1));
        }
        assert(!comment_starts(t, cm, q + 1, b));
        assert(crate::jsonc_layout::newline_from(t, cm, b, q + 1, end));
    } else if comment_starts(t, cm, ci, p) {
        if ci == q {
            assert(false);
        }
        assert(cm[ci].1 <= cm[q].0);
        assert forall|k: int| ci + 1 <= k < cm.len() implies #[trigger] cm[k].0 >= cm[ci].1 by {
            assert(cm[ci].1 <= cm[k].0);
        }
        lemma_newline_found(d, cm[ci].1, ci + 1, q, end);
    } else if t[p] == 0x0a || t[p] == 0x0d {
    } else {
        if ci < cm.len() {
            assert(comment_ok(t, cm[ci].0, cm[ci].1));
        }
        assert forall|k: int| ci <= k < cm.len() implies #[trigger] cm[k].0 >= p + 1 by {
            if k > ci {
                assert(cm[ci].1 <= cm[k].0);
                assert(comment_ok(t, cm[ci].0, cm[ci].1));
            }
        }
        lemma_newline_found(d, p + 1, ci, q, end);
    }
}

/// A container laid out on one line holds no line comment.
proof fn lemma_single_line(d: Doc, i: int)
    requires
        doc_ok(d),
        0 <= i < d.ev.len(),
        !is_scalar(d.ev[i]),
        !d.multiline(i),
    ensures
        forall|q: int|
            0 <= q < d.cm.len() && d.ev[i].start < #[trigger] d.cm[q].0 < d.ev[i].end - 1
                ==> !is_line_comment(d, q),
{
    reveal(doc_ok);
    let t = d.t;
    let cm = d.cm;
    let start = d.ev[i].start;
    let end = d.ev[i].end;
    assert(entry_in(t, d.ev, i, d.ev.len() as int));
    lemma_split_from(t, cm, start, 0);
    let ci = split_at(cm, start, false);
    assert(splits(cm, start, false, ci));
    assert forall|q: int|
        0 <= q < cm.len() && start < #[trigger] cm[q].0 < end - 1 implies !is_line_comment(d, q) by {
        if is_line_comment(d, q) {
            assert(comment_ok(t, cm[q].0, cm[q].1));
            assert(!comment_before(cm, q, start, false));
            assert(cm[q].1 <= end - 1 || cm[q].0 >= end);
            match d.f.line_breaks {
                crate::jsonc_format::JsoncLineBreaks::Preserve => {
                    assert forall|k: int| ci <= k < cm.len() implies #[trigger] cm[k].0 >= start by {
                        assert(!comment_before(cm, k, start, false));
                        assert(cm[k].1 <= d.ev[i].start || cm[k].0 >= d.ev[i].start);
                        assert(comment_ok(t, cm[k].0, cm[k].1));
                    }
                    lemma_newline_found(d, start, ci, q, end);
                    assert(d.multiline(i));
                },
                crate::jsonc_format::JsoncLineBreaks::Always => {
                    if ci < q {
                        assert(cm[ci].1 <= cm[q].0);
                        assert(comment_ok(t, cm[ci].0, cm[ci].1));
                    }
                    assert(!d.in_child(i, cm[ci].0));
                    assert(d.gap_comment_from(i, ci));
                    assert(d.multiline(i));
                },
            }
        }
    }
}

/// The items of a gap `[x, y]`: each lies in it; each comment is a comment of the
/// document; and every item after a line comment lies after its end.
spec fn items_in(d: Doc, items: Seq<Item>, x: int, y: int) -> bool {
    &&& forall|k: int| 0 <= k < items.len() ==> x <= (#[trigger] items[k]).spec_position() <= y
    &&& forall|k: int|
        0 <= k < items.len() && (#[trigger] items[k]) is Comment ==> exists|q: int|
            0 <= q < d.cm.len() && (#[trigger] d.cm[q]).0 == items[k]->Comment_0 as int && d.cm[q].1
                == items[k]->Comment_1 as int
    &&& forall|k: int, l: int|
        0 <= k < l < items.len() && (#[trigger] items[k]) is Comment && d.t[items[k]->Comment_0 as int
            + 1] == 0x2f ==> (#[trigger] items[l]).spec_position() > items[k]->Comment_1 as int
}

proof fn lemma_items_in_empty(d: Doc, x: int, y: int)
    ensures
        items_in(d, Seq::<Item>::empty(), x, y),
{
}

/// An item in front of the items of a later gap.
proof fn lemma_items_in_cons(d: Doc, it: Item, rest: Seq<Item>, x: int, x2: int, y: int)
    requires
        x <= it.spec_position() <= y,
        x <= x2,
        it is Comment ==> exists|q: int|
            0 <= q < d.cm.len() && (#[trigger] d.cm[q]).0 == it->Comment_0 as int && d.cm[q].1
                == it->Comment_1 as int,
        it is Comment && d.t[it->Comment_0 as int + 1] == 0x2f ==> it->Comment_1 < x2,
        items_in(d, rest, x2, y),
    ensures
        items_in(d, seq![it] + rest, x, y),
{
    let s = seq![it] + rest;
    assert forall|k: int| 0 <= k < s.len() implies x <= (#[trigger] s[k]).spec_position() <= y by {
        if k > 0 {
            assert(s[k] == rest[k - 1]);
        }
    }
    assert forall|k: int| 0 <= k < s.len() && (#[trigger] s[k]) is Comment implies exists|q: int|
        0 <= q < d.cm.len() && (#[trigger] d.cm[q]).0 == s[k]->Comment_0 as int && d.cm[q].1
            == s[k]->Comment_1 as int by {
        if k > 0 {
            assert(s[k] == rest[k - 1]);
        }
    }
    assert forall|k: int, l: int|
        0 <= k < l < s.len() && (#[trigger] s[k]) is Comment && d.t[s[k]->Comment_0 as int + 1]
            == 0x2f implies (#[trigger] s[l]).spec_position() > s[k]->Comment_1 as int by {
        assert(s[l] == rest[l - 1]);
        if k > 0 {
            assert(s[k] == rest[k - 1]);
        }
    }
}

/// The items that scanning a gap from `p` up to `end` finds lie in `[p, end]`, each
/// comment being one of the document, and every item after a line comment after its end.
proof fn lemma_scan_in(d: Doc, p: int, ci: int, end: int)
    requires
        doc_ok(d),
        0 <= p,
        0 <= ci <= d.cm.len(),
        end <= d.t.len(),
        forall|q: int| ci <= q < d.cm.len() ==> #[trigger] d.cm[q].0 >= p,
    ensures
        items_in(d, scan_from(d.t, d.cm, p, ci, end), p, end),
    decreases d.t.len() - p,
{
    reveal(doc_ok);
    let t = d.t;
    let cm = d.cm;
    if p >= end || p >= t.len() {
        assert(scan_from(t, cm, p, ci, end) =~= Seq::<Item>::empty());
    } else if comment_starts(t, cm, ci, p) {
        let e = cm[ci].1;
        assert(comment_ok(t, cm[ci].0, cm[ci].1));
        let it = Item::Comment(p as usize, e as usize);
        let rest = scan_from(t, cm, e, ci + 1, end);
        assert(scan_from(t, cm, p, ci, end) == seq![it] + rest);
        assert(cm[ci].0 == it->Comment_0 as int && cm[ci].1 == it->Comment_1 as int);
        if t[p + 1] == 0x2f && e < end {
            // A line comment ends at a line feed, which no item starts at.
            assert(t[e] == 0x0a);
            if ci + 1 < cm.len() {
                assert(cm[ci].1 <= cm[ci + 1].0);
                assert(comment_ok(t, cm[ci + 1].0, cm[ci + 1].1));
            }
            assert(!comment_starts(t, cm, ci + 1, e));
            assert(rest == scan_from(t, cm, e + 1, ci + 1, end));
            assert forall|q: int| ci + 1 <= q < cm.len() implies #[trigger] cm[q].0 >= e + 1 by {
                assert(cm[ci].1 <= cm[q].0);
                assert(comment_ok(t, cm[q].0, cm[q].1));
            }
            lemma_scan_in(d, e + 1, ci + 1, end);
            lemma_items_in_cons(d, it, rest, p, e + 1, end);
        } else {
            assert forall|q: int| ci + 1 <= q < cm.len() implies #[trigger] cm[q].0 >= e by {
                assert(cm[ci].1 <= cm[q].0);
            }
            lemma_scan_in(d, e, ci + 1, end);
            if e >= end {
                assert(rest =~= Seq::<Item>::empty());
                lemma_items_in_empty(d, e + 1, end);
                lemma_items_in_cons(d, it, rest, p, e + 1, end);
            } else {
                lemma_items_in_cons(d, it, rest, p, e, end);
            }
        }
    } else {
        if ci < cm.len() {
            assert(comment_ok(t, cm[ci].0, cm[ci].1));
            assert(cm[ci].0 != p);
        }
        assert forall|q: int| ci <= q < cm.len() implies #[trigger] cm[q].0 >= p + 1 by {
            if q > ci {
                assert(cm[ci].1 <= cm[q].0);
                assert(comment_ok(t, cm[ci].0, cm[ci].1));
            }
        }
        lemma_scan_in(d, p + 1, ci, end);
        let rest = scan_from(t, cm, p + 1, ci, end);
        if t[p] == 0x2c || t[p] == 0x3a {
            let it = if t[p] == 0x2c {
                Item::Comma(p as usize)
            } else {
                Item::Colon(p as usize)
            };
            assert(scan_from(t, cm, p, ci, end) == seq![it] + rest);
            lemma_items_in_cons(d, it, rest, p, p + 1, end);
        }
    }
}

proof fn lemma_gap_items_in(d: Doc, x: int, y: int)
    requires
        doc_ok(d),
        0 <= x <= y <= d.t.len(),
    ensures
        items_in(d, gap_items(d.t, d.cm, x, y), x, y),
{
    if x == y {
        assert(gap_items(d.t, d.cm, x, y) =~= Seq::<Item>::empty());
    } else {
        lemma_sa(d, x);
        assert forall|q: int| sa(d, x) <= q < d.cm.len() implies #[trigger] d.cm[q].0 >= x by {
            assert(!comment_before(d.cm, q, x, true));
        }
        lemma_scan_in(d, x, sa(d, x), y);
    }
}

/// Every item that dropping the commas keeps is an item of the list.
proof fn lemma_drop_member(s: Seq<Item>, k: int)
    requires
        0 <= k < drop_commas(s).len(),
    ensures
        exists|k2: int| 0 <= k2 < s.len() && #[trigger] s[k2] == drop_commas(s)[k],
    decreases s.len(),
{
    let init = s.drop_last();
    let xs = if s.last() is Comma {
        Seq::<Item>::empty()
    } else {
        seq![s.last()]
    };
    assert(drop_commas(s) == drop_commas(init) + xs);
    if k < drop_commas(init).len() {
        lemma_drop_member(init, k);
        let k2 = choose|k2: int| 0 <= k2 < init.len() && #[trigger] init[k2] == drop_commas(init)[k];
        assert(s[k2] == init[k2]);
    } else {
        assert(drop_commas(s)[k] == s[s.len() - 1]);
    }
}

/// An item after the items of a gap.
proof fn lemma_items_in_snoc(d: Doc, s: Seq<Item>, it: Item, x: int, y: int)
    requires
        items_in(d, s, x, y),
        x <= it.spec_position() <= y,
        it is Comment ==> exists|q: int|
            0 <= q < d.cm.len() && (#[trigger] d.cm[q]).0 == it->Comment_0 as int && d.cm[q].1
                == it->Comment_1 as int,
        forall|k: int|
            0 <= k < s.len() && (#[trigger] s[k]) is Comment && d.t[s[k]->Comment_0 as int + 1]
                == 0x2f ==> it.spec_position() > s[k]->Comment_1 as int,
    ensures
        items_in(d, s + seq![it], x, y),
{
    let r = s + seq![it];
    assert forall|k: int| 0 <= k < r.len() implies x <= (#[trigger] r[k]).spec_position() <= y by {
        if k < s.len() {
            assert(r[k] == s[k]);
        }
    }
    assert forall|k: int| 0 <= k < r.len() && (#[trigger] r[k]) is Comment implies exists|q: int|
        0 <= q < d.cm.len() && (#[trigger] d.cm[q]).0 == r[k]->Comment_0 as int && d.cm[q].1
            == r[k]->Comment_1 as int by {
        if k < s.len() {
            assert(r[k] == s[k]);
        }
    }
    assert forall|k: int, l: int|
        0 <= k < l < r.len() && (#[trigger] r[k]) is Comment && d.t[r[k]->Comment_0 as int + 1]
            == 0x2f implies (#[trigger] r[l]).spec_position() > r[k]->Comment_1 as int by {
        assert(r[k] == s[k]);
        if l < s.len() {
            assert(r[l] == s[l]);
        }
    }
}

proof fn lemma_drop_commas_in(d: Doc, items: Seq<Item>, x: int, y: int)
    requires
        items_in(d, items, x, y),
    ensures
        items_in(d, drop_commas(items), x, y),
    decreases items.len(),
{
    if items.len() > 0 {
        let init = items.drop_last();
        let last = items.last();
        assert(items_in(d, init, x, y)) by {
            assert forall|k: int| 0 <= k < init.len() implies x <= (#[trigger] init[k]).spec_position()
                <= y by {
                assert(init[k] == items[k]);
            }
            assert forall|k: int| 0 <= k < init.len() && (#[trigger] init[k]) is Comment implies exists|q: int|
                0 <= q < d.cm.len() && (#[trigger] d.cm[q]).0 == init[k]->Comment_0 as int
                    && d.cm[q].1 == init[k]->Comment_1 as int by {
                assert(init[k] == items[k]);
            }
            assert forall|k: int, l: int|
                0 <= k < l < init.len() && (#[trigger] init[k]) is Comment && d.t[init[k]->Comment_0 as int
                    + 1] == 0x2f implies (#[trigger] init[l]).spec_position() > init[k]->Comment_1 as int by {
                assert(init[k] == items[k]);
                assert(init[l] == items[l]);
            }
        }
        lemma_drop_commas_in(d, init, x, y);
        assert(items[items.len() - 1] == last);
        if last is Comma {
            assert(drop_commas(items) =~= drop_commas(init));
        } else {
            let dc = drop_commas(init);
            assert forall|k: int|
                0 <= k < dc.len() && (#[trigger] dc[k]) is Comment && d.t[dc[k]->Comment_0 as int + 1]
                    == 0x2f implies last.spec_position() > dc[k]->Comment_1 as int by {
                lemma_drop_member(init, k);
                let k2 = choose|k2: int| 0 <= k2 < init.len() && #[trigger] init[k2] == dc[k];
                assert(items[k2] == init[k2]);
                assert(items[k2] is Comment);
            }
            lemma_items_in_snoc(d, dc, last, x, y);
            assert(drop_commas(items) == dc + seq![last]);
        }
    }
}

proof fn lemma_trailing_in(d: Doc, i: int, multiline: bool, tail: Seq<Item>, x: int, y: int)
    requires
        items_in(d, tail, x, y),
        d.last_end(i) == x,
        0 <= x <= y <= usize::MAX,
    ensures
        items_in(d, d.trailing(i, multiline, tail), x, y),
{
    lemma_drop_commas_in(d, tail, x, y);
    let it = Item::Comma(d.last_end(i) as usize);
    lemma_items_in_cons(d, it, tail, x, x, y);
}

/// No comment runs over the start or the end of value `j`, nor, for a container, over
/// the byte after its opening bracket; and a line comment that starts by the start of
/// the value ends before it.
proof fn lemma_value_edges(d: Doc, j: int)
    requires
        doc_ok(d),
        0 <= j < d.ev.len(),
    ensures
        no_straddle(d, d.ev[j].start),
        no_straddle(d, d.ev[j].end),
        !is_scalar(d.ev[j]) ==> no_straddle(d, d.ev[j].start + 1),
        forall|q: int|
            0 <= q < d.cm.len() && #[trigger] d.cm[q].0 <= d.ev[j].start && is_line_comment(d, q)
                ==> d.cm[q].1 < d.ev[j].start,
{
    reveal(doc_ok);
    let t = d.t;
    let cm = d.cm;
    let ev = d.ev;
    assert(entry_in(t, ev, j, ev.len() as int));
    assert forall|q: int| 0 <= q < cm.len() implies !(#[trigger] cm[q].0 < ev[j].start < cm[q].1) by {
        assert(cm[q].1 <= ev[j].start || cm[q].0 >= ev[j].start);
    }
    assert forall|q: int| 0 <= q < cm.len() implies !(#[trigger] cm[q].0 < ev[j].end < cm[q].1) by {
        assert(!Set::<int>::empty().contains(j));
        assert(cm[q].1 <= ev[j].end - 1 || cm[q].0 >= ev[j].end);
    }
    if !is_scalar(ev[j]) {
        assert forall|q: int| 0 <= q < cm.len() implies !(#[trigger] cm[q].0 < ev[j].start + 1
            < cm[q].1) by {
            assert(cm[q].1 <= ev[j].start || cm[q].0 >= ev[j].start);
            assert(comment_ok(t, cm[q].0, cm[q].1));
        }
    }
    assert forall|q: int|
        0 <= q < cm.len() && #[trigger] cm[q].0 <= ev[j].start && is_line_comment(d, q) implies cm[q].1
        < ev[j].start by {
        assert(comment_ok(t, cm[q].0, cm[q].1));
        assert(cm[q].1 <= ev[j].start || cm[q].0 >= ev[j].start);
        if is_scalar(ev[j]) {
            assert(!(ev[j].start <= cm[q].0 < ev[j].end));
            assert(t[ev[j].start] >= 0x20);
        }
    }
}

/// The gaps of a container laid out on one line hold no line comment.
proof fn lemma_no_lc(d: Doc, i: int, items: Seq<Item>, x: int, y: int)
    requires
        doc_ok(d),
        0 <= i < d.ev.len(),
        !is_scalar(d.ev[i]),
        !d.multiline(i),
        items_in(d, items, x, y),
        d.ev[i].start < x,
        y <= d.ev[i].end - 1,
    ensures
        no_lc(d.t, items),
{
    lemma_single_line(d, i);
    reveal(doc_ok);
    assert(entry_in(d.t, d.ev, i, d.ev.len() as int));
    assert forall|k: int| 0 <= k < items.len() && (#[trigger] items[k]) is Comment implies d.t[
        items[k]->Comment_0 as int + 1] != 0x2f by {
        let q = choose|q: int|
            0 <= q < d.cm.len() && (#[trigger] d.cm[q]).0 == items[k]->Comment_0 as int && d.cm[q].1
                == items[k]->Comment_1 as int;
        assert(comment_ok(d.t, d.cm[q].0, d.cm[q].1));
        assert(x <= items[k].spec_position() <= y);
        assert(d.cm[q].0 != d.ev[i].end - 1);
        assert(!is_line_comment(d, q));
    }
}

/// The comments of `cm` from `lo` up to `hi` that start at or after `from` lie in the
/// gap `[x, y]` when those that start at or after `from` start by `y`.
proof fn lemma_comments_from_in(d: Doc, lo: int, hi: int, from: int, x: int, y: int)
    requires
        doc_ok(d),
        0 <= lo <= hi <= d.cm.len(),
        x <= from,
        forall|q: int| lo <= q < hi && #[trigger] d.cm[q].0 >= from ==> d.cm[q].0 <= y,
    ensures
        items_in(d, comments_from(d.cm, lo, hi, from), x, y),
        forall|k: int|
            0 <= k < comments_from(d.cm, lo, hi, from).len() ==> exists|q: int|
                lo <= q < hi && (#[trigger] d.cm[q]).0 == (#[trigger] comments_from(d.cm, lo, hi, from)[k])->Comment_0 as int
                    && d.cm[q].1 == comments_from(d.cm, lo, hi, from)[k]->Comment_1 as int
                    && comments_from(d.cm, lo, hi, from)[k] is Comment,
    decreases hi - lo,
{
    reveal(doc_ok);
    let cm = d.cm;
    if hi == lo {
        assert(comments_from(cm, lo, hi, from) =~= Seq::<Item>::empty());
    } else {
        lemma_comments_from_in(d, lo, hi - 1, from, x, y);
        let prev = comments_from(cm, lo, hi - 1, from);
        let c = cm[hi - 1];
        assert(comment_ok(d.t, c.0, c.1));
        if c.0 >= from {
            let it = Item::Comment(c.0 as usize, c.1 as usize);
            let all = comments_from(cm, lo, hi, from);
            assert(all == prev + seq![it]);
            assert forall|k: int|
                0 <= k < prev.len() && (#[trigger] prev[k]) is Comment && d.t[prev[k]->Comment_0 as int
                    + 1] == 0x2f implies it.spec_position() > prev[k]->Comment_1 as int by {
                let q = choose|q: int|
                    lo <= q < hi - 1 && (#[trigger] cm[q]).0 == prev[k]->Comment_0 as int && cm[q].1
                        == prev[k]->Comment_1 as int && prev[k] is Comment;
                assert(cm[q].1 <= cm[hi - 1].0);
                assert(comment_ok(d.t, cm[q].0, cm[q].1));
            }
            assert(cm[hi - 1].0 == it->Comment_0 as int);
            lemma_items_in_snoc(d, prev, it, x, y);
            assert forall|k: int| 0 <= k < all.len() implies exists|q: int|
                lo <= q < hi && (#[trigger] cm[q]).0 == (#[trigger] all[k])->Comment_0 as int && cm[q].1
                    == all[k]->Comment_1 as int && all[k] is Comment by {
                if k < prev.len() {
                    assert(all[k] == prev[k]);
                    let q = choose|q: int|
                        lo <= q < hi - 1 && (#[trigger] cm[q]).0 == (#[trigger] prev[k])->Comment_0 as int
                            && cm[q].1 == prev[k]->Comment_1 as int && prev[k] is Comment;
                    assert(cm[q].0 == all[k]->Comment_0 as int);
                } else {
                    assert(all[k] == it);
                    assert(cm[hi - 1].0 == all[k]->Comment_0 as int);
                }
            }
        } else {
            assert(comments_from(cm, lo, hi, from) =~= prev);
        }
    }
}

} // verus!
