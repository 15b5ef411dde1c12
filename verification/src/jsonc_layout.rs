//! The layout that the JSONC formatter gives a text, stated over the text, its
//! comments and its value index: what each step of the formatter appends.
use vstd::prelude::*;
use crate::comments::comment_ok;
use crate::error::line_start;
use crate::grammar::Entry;
use crate::jsonc_format::{JsoncFormatter, JsoncLineBreaks, JsoncTrailingCommas, column};
use crate::kind::JsonValueKind;
use crate::raw::{chain, children, pairs};
use crate::comments::{comments_ok, lemma_parse_text_comments};
use crate::grammar::parse_text;
use crate::structure::{entry_in, index_wf, lemma_parse_text_wf};

verus! {

/// An item found in a gap between two structural tokens.
#[derive(Clone, Copy)]
pub enum Item {
    Comment(usize, usize),
    Comma(usize),
    Colon(usize),
}

impl Item {
    pub fn position(&self) -> (p: usize)
        ensures
            p == self.spec_position(),
    {
        match self {
            Item::Comment(a, _) => *a,
            Item::Comma(p) => *p,
            Item::Colon(p) => *p,
        }
    }

    pub open spec fn spec_position(&self) -> usize {
        match self {
            Item::Comment(a, _) => *a,
            Item::Comma(p) => *p,
            Item::Colon(p) => *p,
        }
    }
}

/// The comments of `items` are comments of `t`, and every position lies in `t`.
pub open spec fn items_ok(t: Seq<u8>, items: Seq<Item>) -> bool {
    forall|i: int|
        0 <= i < items.len() ==> match #[trigger] items[i] {
            Item::Comment(a, b) => comment_ok(t, a as int, b as int),
            Item::Comma(p) => p <= t.len(),
            Item::Colon(p) => p <= t.len(),
        }
}

/// Whether comment `k` lies before `pos`: it starts before `pos` when `by_start`,
/// else it ends at or before `pos`.
pub open spec fn comment_before(cm: Seq<(int, int)>, k: int, pos: int, by_start: bool) -> bool {
    if by_start {
        cm[k].0 < pos
    } else {
        cm[k].1 <= pos
    }
}

/// `r` splits the comments in two: those before `pos` (see [`comment_before`]), then
/// the others.
pub open spec fn splits(cm: Seq<(int, int)>, pos: int, by_start: bool, r: int) -> bool {
    &&& 0 <= r <= cm.len()
    &&& forall|k: int| 0 <= k < r ==> comment_before(cm, k, pos, by_start)
    &&& forall|k: int| r <= k < cm.len() ==> !comment_before(cm, k, pos, by_start)
}

/// The number of comments before `pos`.
pub open spec fn split_at(cm: Seq<(int, int)>, pos: int, by_start: bool) -> int {
    choose|r: int| splits(cm, pos, by_start, r)
}

pub proof fn lemma_split_at(cm: Seq<(int, int)>, pos: int, by_start: bool, r: int)
    requires
        splits(cm, pos, by_start, r),
    ensures
        split_at(cm, pos, by_start) == r,
{
    let q = split_at(cm, pos, by_start);
    assert(splits(cm, pos, by_start, q));
    if q < r {
        assert(comment_before(cm, q, pos, by_start));
    } else if r < q {
        assert(comment_before(cm, r, pos, by_start));
    }
}

/// Comment `ci` of `cm` starts at `p` (and ends after it, within `t`).
pub open spec fn comment_starts(t: Seq<u8>, cm: Seq<(int, int)>, ci: int, p: int) -> bool {
    0 <= ci < cm.len() && cm[ci].0 == p && p < cm[ci].1 <= t.len()
}

/// The items of a gap, from byte `p` up to `end`, the comments from `ci` on being
/// those not yet passed: each comment, and each comma or colon outside comments.
pub open spec fn scan_from(t: Seq<u8>, cm: Seq<(int, int)>, p: int, ci: int, end: int) -> Seq<Item>
    decreases t.len() - p,
{
    if p < 0 || p >= end || p >= t.len() {
        seq![]
    } else if comment_starts(t, cm, ci, p) {
        seq![Item::Comment(p as usize, cm[ci].1 as usize)] + scan_from(t, cm, cm[ci].1, ci + 1, end)
    } else if t[p] == 0x2c {
        seq![Item::Comma(p as usize)] + scan_from(t, cm, p + 1, ci, end)
    } else if t[p] == 0x3a {
        seq![Item::Colon(p as usize)] + scan_from(t, cm, p + 1, ci, end)
    } else {
        scan_from(t, cm, p + 1, ci, end)
    }
}

/// The items (comments, commas and colons) of the gap `[start, end)`, in text order.
pub open spec fn gap_items(t: Seq<u8>, cm: Seq<(int, int)>, start: int, end: int) -> Seq<Item> {
    if start >= end {
        seq![]
    } else {
        scan_from(t, cm, start, split_at(cm, start, true), end)
    }
}

/// The number of line feeds in `[q, e)`.
pub open spec fn lf_count(t: Seq<u8>, q: int, e: int) -> int
    decreases e - q,
{
    if e <= q {
        0
    } else {
        lf_count(t, q, e - 1) + (if t[e - 1] == 0x0a {
            1int
        } else {
            0int
        })
    }
}

/// The line breaks from byte `p` up to `pos`: every line feed, also in comments, and
/// every carriage return outside comments that no line feed follows; a CRLF counts
/// once.
pub open spec fn lines_from(t: Seq<u8>, cm: Seq<(int, int)>, p: int, ci: int, pos: int) -> int
    decreases t.len() - p,
{
    if p < 0 || p >= pos || p >= t.len() {
        0
    } else if comment_starts(t, cm, ci, p) {
        lf_count(t, p, cm[ci].1) + lines_from(t, cm, cm[ci].1, ci + 1, pos)
    } else if t[p] == 0x0a {
        1 + lines_from(t, cm, p + 1, ci, pos)
    } else if t[p] == 0x0d {
        if p + 1 < t.len() && t[p + 1] == 0x0a {
            1 + lines_from(t, cm, p + 2, ci, pos)
        } else {
            1 + lines_from(t, cm, p + 1, ci, pos)
        }
    } else {
        lines_from(t, cm, p + 1, ci, pos)
    }
}

/// The number of line breaks in `[start, pos)`.
pub open spec fn line_breaks(t: Seq<u8>, cm: Seq<(int, int)>, start: int, pos: int) -> int {
    if start >= pos {
        0
    } else {
        lines_from(t, cm, start, split_at(cm, start, false), pos)
    }
}

/// From byte `p` up to `pos`: whether a blank line follows, given whether a line break
/// came last (`prev_break`) and whether the current line has content.
pub open spec fn blank_from(
    t: Seq<u8>,
    cm: Seq<(int, int)>,
    p: int,
    ci: int,
    pos: int,
    prev_break: bool,
    content: bool,
) -> bool
    decreases t.len() - p,
{
    if p < 0 || p >= pos || p >= t.len() {
        false
    } else if comment_starts(t, cm, ci, p) {
        blank_from(t, cm, cm[ci].1, ci + 1, pos, prev_break, true)
    } else if t[p] == 0x0a || t[p] == 0x0d {
        if prev_break && !content {
            true
        } else if t[p] == 0x0d && p + 1 < t.len() && t[p + 1] == 0x0a {
            blank_from(t, cm, p + 2, ci, pos, true, false)
        } else {
            blank_from(t, cm, p + 1, ci, pos, true, false)
        }
    } else if t[p] == 0x20 || t[p] == 0x09 {
        blank_from(t, cm, p + 1, ci, pos, prev_break, content)
    } else {
        blank_from(t, cm, p + 1, ci, pos, prev_break, true)
    }
}

/// `[start, pos)` holds a blank line: two line breaks with only spaces and tabs, and
/// no comment, between them.
pub open spec fn has_blank(t: Seq<u8>, cm: Seq<(int, int)>, start: int, pos: int) -> bool {
    if start >= pos {
        false
    } else {
        blank_from(t, cm, start, split_at(cm, start, false), pos, false, false)
    }
}

/// From byte `p` up to `end`: a line feed (also in a comment), or a carriage return
/// outside comments.
pub open spec fn newline_from(t: Seq<u8>, cm: Seq<(int, int)>, p: int, ci: int, end: int) -> bool
    decreases t.len() - p,
{
    if p < 0 || p >= end || p >= t.len() {
        false
    } else if comment_starts(t, cm, ci, p) {
        lf_count(t, p, cm[ci].1) > 0 || newline_from(t, cm, cm[ci].1, ci + 1, end)
    } else if t[p] == 0x0a || t[p] == 0x0d {
        true
    } else {
        newline_from(t, cm, p + 1, ci, end)
    }
}

pub proof fn lemma_lf_count_mono(t: Seq<u8>, q: int, e: int, e2: int)
    requires
        q <= e <= e2,
    ensures
        lf_count(t, q, e) <= lf_count(t, q, e2),
    decreases e2 - e,
{
    if e < e2 {
        lemma_lf_count_mono(t, q, e, e2 - 1);
    }
}

/// `[start, end)` holds a physical line break.
pub open spec fn has_newline(t: Seq<u8>, cm: Seq<(int, int)>, start: int, end: int) -> bool {
    if start >= end {
        false
    } else {
        newline_from(t, cm, start, split_at(cm, start, false), end)
    }
}


/// `n` spaces.
pub open spec fn spaces(n: nat) -> Seq<u8> {
    Seq::new(n, |i: int| 0x20u8)
}

/// `a + b`, or `usize::MAX` when it is larger.
pub open spec fn sat_add(a: int, b: int) -> int {
    if a + b <= usize::MAX {
        a + b
    } else {
        usize::MAX as int
    }
}

/// `a * b`, or `usize::MAX` when it is larger.
pub open spec fn sat_mul(a: int, b: int) -> int {
    if a * b <= usize::MAX {
        a * b
    } else {
        usize::MAX as int
    }
}

/// The first line feed at or after `p` and before `b`, or `b`.
pub open spec fn next_lf(t: Seq<u8>, p: int, b: int) -> int
    decreases b - p,
{
    if 0 <= p < b && p < t.len() && t[p] != 0x0a {
        next_lf(t, p + 1, b)
    } else {
        p
    }
}

/// The number of spaces that begin `[p, e)`.
pub open spec fn lead_spaces(t: Seq<u8>, p: int, e: int) -> int
    decreases e - p,
{
    if 0 <= p < e && p < t.len() && t[p] == 0x20 {
        1 + lead_spaces(t, p + 1, e)
    } else {
        0
    }
}

/// `items` without its commas.
pub open spec fn drop_commas(items: Seq<Item>) -> Seq<Item>
    decreases items.len(),
{
    if items.len() == 0 {
        seq![]
    } else {
        drop_commas(items.drop_last()) + (if items.last() is Comma {
            Seq::<Item>::empty()
        } else {
            seq![items.last()]
        })
    }
}

/// Some item of `items` is a comma.
pub open spec fn has_comma(items: Seq<Item>) -> bool {
    exists|k: int| 0 <= k < items.len() && #[trigger] items[k] is Comma
}

/// The first index in `[lo, hi)` found by halving the range, going right past every
/// end at or before `pos`.
pub open spec fn bsearch(ends: Seq<int>, pos: int, lo: int, hi: int) -> int
    decreases hi - lo,
{
    if lo < hi {
        let mid = lo + (hi - lo) / 2;
        if ends[mid] <= pos {
            bsearch(ends, pos, mid + 1, hi)
        } else {
            bsearch(ends, pos, lo, mid)
        }
    } else {
        lo
    }
}

/// The comments of `cm` from `lo` up to `hi` that start at or after `from`, as items.
pub open spec fn comments_from(cm: Seq<(int, int)>, lo: int, hi: int, from: int) -> Seq<Item>
    decreases hi - lo,
{
    if hi <= lo {
        seq![]
    } else {
        comments_from(cm, lo, hi - 1, from) + (if cm[hi - 1].0 >= from {
            seq![Item::Comment(cm[hi - 1].0 as usize, cm[hi - 1].1 as usize)]
        } else {
            Seq::<Item>::empty()
        })
    }
}

pub proof fn lemma_chain_bounds(ev: Seq<Entry>, j: int, end: int)
    ensures
        forall|k: int|
            0 <= k < chain(ev, j, end).len() ==> j <= #[trigger] chain(ev, j, end)[k] < end,
    decreases end - j,
{
    if 0 <= j < end && j < ev.len() && j < ev[j].end_index <= end {
        lemma_chain_bounds(ev, ev[j].end_index, end);
        let rest = chain(ev, ev[j].end_index, end);
        assert forall|k: int| 0 <= k < chain(ev, j, end).len() implies j <= #[trigger] chain(
            ev,
            j,
            end,
        )[k] < end by {
            if k > 0 {
                assert(chain(ev, j, end)[k] == rest[k - 1]);
            }
        }
    }
}

/// The text to format, its comments and value index, and the settings.
pub struct Doc {
    pub t: Seq<u8>,
    pub cm: Seq<(int, int)>,
    pub ev: Seq<Entry>,
    pub f: JsoncFormatter,
}

impl Doc {
    /// `o` followed by the indentation of `level`.
    pub open spec fn indent(self, o: Seq<u8>, level: int) -> Seq<u8> {
        o + spaces(sat_mul(self.f.indent_size as int, level) as nat)
    }

    /// `o` with its line ended (unless it ends one), and one blank line more when the
    /// input had one between `last` and `next`.
    pub open spec fn newline_and_blank(self, o: Seq<u8>, last: int, next: int) -> Seq<u8> {
        let o1 = if column(o) != 0 {
            o.push(0x0a)
        } else {
            o
        };
        if has_blank(self.t, self.cm, last, next) {
            o1.push(0x0a)
        } else {
            o1
        }
    }

    /// `o` followed by the comment `[a, b)`: a line comment as it is, less the
    /// carriage return of a CRLF that ends it; a block comment line by line.
    pub open spec fn comment(self, o: Seq<u8>, a: int, b: int) -> Seq<u8> {
        if self.t[a + 1] == 0x2f {
            let end = if self.t[b - 1] == 0x0d && b < self.t.len() && self.t[b] == 0x0a {
                b - 1
            } else {
                b
            };
            o + self.t.subrange(a, end)
        } else {
            self.block_lines(o, b, a, true, a - line_start(self.t, a), column(o) as int)
        }
    }

    /// `o` followed by the lines of a block comment ending at `b`, from the one that
    /// starts at `ls`: the first as it is, each later one on a new line with its
    /// leading spaces shifted by the comment's move from input column `in_col` to
    /// output column `out_col`; the carriage return of a CRLF is dropped.
    pub open spec fn block_lines(
        self,
        o: Seq<u8>,
        b: int,
        ls: int,
        first: bool,
        in_col: int,
        out_col: int,
    ) -> Seq<u8>
        decreases b - ls,
    {
        if ls < 0 || ls > b || b > self.t.len() {
            o
        } else {
            let le = next_lf(self.t, ls, b);
            let last = le >= b;
            let line_end = if !last && le > ls && self.t[le - 1] == 0x0d {
                le - 1
            } else {
                le
            };
            let o2 = if first {
                o + self.t.subrange(ls, line_end)
            } else {
                let lead = lead_spaces(self.t, ls, line_end);
                let adjusted = if out_col >= in_col {
                    sat_add(lead, out_col - in_col)
                } else if lead >= in_col - out_col {
                    lead - (in_col - out_col)
                } else {
                    0
                };
                o.push(0x0a) + spaces(adjusted as nat) + self.t.subrange(ls + lead, line_end)
            };
            if last || le + 1 <= ls {
                o2
            } else {
                self.block_lines(o2, b, le + 1, false, in_col, out_col)
            }
        }
    }

    /// The output after the gap items from the `k`-th on, with the state the
    /// formatter keeps: whether the line is fresh, the input line of the last item,
    /// and the end of the last comment. Returns the output, the last line and the
    /// end of the last comment.
    pub open spec fn gap_from(
        self,
        o: Seq<u8>,
        level: int,
        prev_end: int,
        items: Seq<Item>,
        k: int,
        at_ls: bool,
        last_line: int,
        lce: int,
        force: bool,
    ) -> (Seq<u8>, int, int)
        decreases items.len() - k,
    {
        if k < 0 || k >= items.len() {
            (o, last_line, lce)
        } else {
            let item = items[k];
            let pos = item.spec_position() as int;
            let line = if force {
                last_line + 1
            } else {
                line_breaks(self.t, self.cm, prev_end, pos)
            };
            let o1 = if line > last_line {
                self.indent(self.newline_and_blank(o, lce, pos), level)
            } else {
                o
            };
            let at1 = if line > last_line {
                true
            } else {
                at_ls
            };
            match item {
                Item::Comment(a, b) => self.gap_from(
                    self.comment(
                        if !at1 {
                            o1.push(0x20)
                        } else {
                            o1
                        },
                        a as int,
                        b as int,
                    ),
                    level,
                    prev_end,
                    items,
                    k + 1,
                    false,
                    line,
                    b as int,
                    force,
                ),
                Item::Comma(_) => self.gap_from(
                    o1.push(0x2c),
                    level,
                    prev_end,
                    items,
                    k + 1,
                    false,
                    line,
                    lce,
                    force,
                ),
                Item::Colon(_) => self.gap_from(
                    o1.push(0x3a),
                    level,
                    prev_end,
                    items,
                    k + 1,
                    false,
                    line,
                    lce,
                    force,
                ),
            }
        }
    }

    /// The output after the items of a gap that follows `prev_end`, each on its own
    /// line when `force` is set or when it starts a later input line, else on the
    /// same line; with the last input line and the end of the last comment.
    pub open spec fn gap(
        self,
        o: Seq<u8>,
        level: int,
        prev_end: int,
        items: Seq<Item>,
        initial: bool,
        force: bool,
    ) -> (Seq<u8>, int, int) {
        self.gap_from(o, level, prev_end, items, 0, initial, 0, prev_end, force)
    }

    /// `o` followed by the items from the `k`-th on, on one line: a comment after a
    /// space, a comma or a colon as it is.
    pub open spec fn inline_from(self, o: Seq<u8>, items: Seq<Item>, k: int) -> Seq<u8>
        decreases items.len() - k,
    {
        if k < 0 || k >= items.len() {
            o
        } else {
            let o1 = match items[k] {
                Item::Comment(a, b) => self.comment(o.push(0x20), a as int, b as int),
                Item::Comma(_) => o.push(0x2c),
                Item::Colon(_) => o.push(0x3a),
            };
            self.inline_from(o1, items, k + 1)
        }
    }

    /// `o` followed by the comments among the items from the `k`-th on, each followed
    /// by a space when `space_after`, else preceded by one.
    pub open spec fn gap_comments_from(self, o: Seq<u8>, items: Seq<Item>, k: int, space_after: bool) -> Seq<u8>
        decreases items.len() - k,
    {
        if k < 0 || k >= items.len() {
            o
        } else {
            let o1 = match items[k] {
                Item::Comment(a, b) => if space_after {
                    self.comment(o, a as int, b as int).push(0x20)
                } else {
                    self.comment(o.push(0x20), a as int, b as int)
                },
                _ => o,
            };
            self.gap_comments_from(o1, items, k + 1, space_after)
        }
    }

    /// The children of value `i`.
    pub open spec fn kids(self, i: int) -> Seq<int> {
        children(self.ev, i)
    }

    /// The name and value pairs of value `i`.
    pub open spec fn members(self, i: int) -> Seq<(int, int)> {
        pairs(children(self.ev, i))
    }

    /// Value `i` is an array or an object with an element or a member.
    pub open spec fn has_content(self, i: int) -> bool {
        if self.ev[i].kind == JsonValueKind::Array {
            self.kids(i).len() > 0
        } else if self.ev[i].kind == JsonValueKind::Object {
            self.members(i).len() > 0
        } else {
            false
        }
    }

    /// The ends of the children of value `i`.
    pub open spec fn kid_ends(self, i: int) -> Seq<int> {
        self.kids(i).map_values(|x: int| self.ev[x].end)
    }

    /// The ends of the member values of value `i`.
    pub open spec fn member_ends(self, i: int) -> Seq<int> {
        self.members(i).map_values(|x: (int, int)| self.ev[x.1].end)
    }

    /// Byte `c` lies in a child of value `i`: the child that the search by ends finds.
    pub open spec fn in_child(self, i: int, c: int) -> bool {
        if self.ev[i].kind == JsonValueKind::Array {
            let e = self.kids(i);
            let f = bsearch(self.kid_ends(i), c, 0, e.len() as int);
            f < e.len() && self.ev[e[f]].start <= c < self.ev[e[f]].end
        } else if self.ev[i].kind == JsonValueKind::Object {
            let m = self.members(i);
            let f = bsearch(self.member_ends(i), c, 0, m.len() as int);
            f < m.len() && ((self.ev[m[f].0].start <= c < self.ev[m[f].0].end) || (
            self.ev[m[f].1].start <= c < self.ev[m[f].1].end))
        } else {
            false
        }
    }

    /// From comment `ci` on: a comment inside value `i` that no child of it holds.
    pub open spec fn gap_comment_from(self, i: int, ci: int) -> bool
        decreases self.cm.len() - ci,
    {
        if 0 <= ci < self.cm.len() {
            if self.cm[ci].0 >= self.ev[i].end {
                false
            } else if !self.in_child(i, self.cm[ci].0) {
                true
            } else {
                self.gap_comment_from(i, ci + 1)
            }
        } else {
            false
        }
    }

    /// Value `i` has a comment in one of its own gaps.
    pub open spec fn has_gap_comment(self, i: int) -> bool {
        self.gap_comment_from(i, split_at(self.cm, self.ev[i].start, false))
    }

    /// Container `i` is laid out on multiple lines.
    pub open spec fn multiline(self, i: int) -> bool {
        match self.f.line_breaks {
            JsoncLineBreaks::Preserve => has_newline(self.t, self.cm, self.ev[i].start, self.ev[i].end),
            JsoncLineBreaks::Always => self.has_content(i) || self.has_gap_comment(i),
        }
    }

    /// The end of the last element or member value of container `i`.
    pub open spec fn last_end(self, i: int) -> int {
        if self.ev[i].kind == JsonValueKind::Array {
            self.ev[self.kids(i).last()].end
        } else if self.ev[i].kind == JsonValueKind::Object {
            self.ev[self.members(i).last().1].end
        } else {
            self.ev[i].end
        }
    }

    /// The items of the tail gap of container `i` under the trailing-comma policy.
    pub open spec fn trailing(self, i: int, multiline: bool, tail: Seq<Item>) -> Seq<Item> {
        match self.f.trailing_commas {
            JsoncTrailingCommas::Preserve => tail,
            JsoncTrailingCommas::Never => drop_commas(tail),
            JsoncTrailingCommas::AlwaysMultiline => if multiline && self.has_content(i)
                && has_comma(tail) {
                tail
            } else if multiline && self.has_content(i) {
                seq![Item::Comma(self.last_end(i) as usize)] + tail
            } else {
                drop_commas(tail)
            },
        }
    }

    /// `o` followed by value `i` laid out at `level`.
    pub open spec fn value(self, o: Seq<u8>, level: int, i: int) -> Seq<u8>
        decreases self.ev.len() - i, 3int, 0int,
    {
        if !(0 <= i < self.ev.len()) {
            o
        } else if self.ev[i].kind == JsonValueKind::Array {
            if self.multiline(i) {
                self.ml_array(o, level, i)
            } else {
                self.sl_array(o, level, i)
            }
        } else if self.ev[i].kind == JsonValueKind::Object {
            if self.multiline(i) {
                self.ml_object(o, level, i)
            } else {
                self.sl_object(o, level, i)
            }
        } else {
            o + self.t.subrange(self.ev[i].start, self.ev[i].end)
        }
    }

    /// `o` followed by array `i` on multiple lines.
    pub open spec fn ml_array(self, o: Seq<u8>, level: int, i: int) -> Seq<u8>
        decreases self.ev.len() - i, 2int, 0int,
    {
        let open = self.ev[i].start;
        let close = self.ev[i].end - 1;
        let inner = sat_add(level, 1);
        let o1 = o.push(0x5b);
        let e = self.kids(i);
        if e.len() == 0 {
            let r = self.gap(o1, inner, open + 1, gap_items(self.t, self.cm, open + 1, close), false, true);
            self.indent(self.newline_and_blank(r.0, r.2, close), level).push(0x5d)
        } else {
            let o2 = self.ml_elems(o1, inner, i, 0);
            let last_end = self.ev[e.last()].end;
            let tail = self.trailing(i, true, gap_items(self.t, self.cm, last_end, close));
            let r = self.gap(o2, inner, last_end, tail, false, false);
            self.indent(self.newline_and_blank(r.0, r.2, close), level).push(0x5d)
        }
    }

    /// `o` followed by the elements of array `i` from the `k`-th on, each on its own
    /// line after the items of the gap before it.
    pub open spec fn ml_elems(self, o: Seq<u8>, inner: int, i: int, k: int) -> Seq<u8>
        decreases self.ev.len() - i, 1int, self.kids(i).len() - k,
    {
        let e = self.kids(i);
        if k < 0 || k >= e.len() || !(i < e[k] < self.ev.len()) {
            o
        } else {
            let c = e[k];
            let prev_end = if k == 0 {
                self.ev[i].start + 1
            } else {
                self.ev[e[k - 1]].end
            };
            let r = self.gap(o, inner, prev_end, gap_items(self.t, self.cm, prev_end, self.ev[c].start), false, k == 0);
            let o2 = self.indent(self.newline_and_blank(r.0, r.2, self.ev[c].start), inner);
            self.ml_elems(self.value(o2, inner, c), inner, i, k + 1)
        }
    }

    /// `o` followed by object `i` on multiple lines.
    pub open spec fn ml_object(self, o: Seq<u8>, level: int, i: int) -> Seq<u8>
        decreases self.ev.len() - i, 2int, 0int,
    {
        let open = self.ev[i].start;
        let close = self.ev[i].end - 1;
        let inner = sat_add(level, 1);
        let o1 = o.push(0x7b);
        let m = self.members(i);
        if m.len() == 0 {
            let r = self.gap(o1, inner, open + 1, gap_items(self.t, self.cm, open + 1, close), false, true);
            self.indent(self.newline_and_blank(r.0, r.2, close), level).push(0x7d)
        } else {
            let o2 = self.ml_members(o1, inner, i, 0);
            let last_end = self.ev[m.last().1].end;
            let tail = self.trailing(i, true, gap_items(self.t, self.cm, last_end, close));
            let r = self.gap(o2, inner, last_end, tail, false, false);
            self.indent(self.newline_and_blank(r.0, r.2, close), level).push(0x7d)
        }
    }

    /// `o` followed by the members of object `i` from the `k`-th on, each on its own
    /// line: the name, the gap to the value, and the value.
    pub open spec fn ml_members(self, o: Seq<u8>, inner: int, i: int, k: int) -> Seq<u8>
        decreases self.ev.len() - i, 1int, self.members(i).len() - k,
    {
        let m = self.members(i);
        if k < 0 || k >= m.len() || !(i < m[k].1 < self.ev.len()) {
            o
        } else {
            let key = m[k].0;
            let v = m[k].1;
            let prev_end = if k == 0 {
                self.ev[i].start + 1
            } else {
                self.ev[m[k - 1].1].end
            };
            let r = self.gap(o, inner, prev_end, gap_items(self.t, self.cm, prev_end, self.ev[key].start), false, k == 0);
            let o2 = self.indent(self.newline_and_blank(r.0, r.2, self.ev[key].start), inner)
                + self.t.subrange(self.ev[key].start, self.ev[key].end);
            let r2 = self.gap(o2, inner, self.ev[key].end, gap_items(self.t, self.cm, self.ev[key].end, self.ev[v].start), false, false);
            let vline = line_breaks(self.t, self.cm, self.ev[key].end, self.ev[v].start);
            let o3 = if vline > r2.1 {
                self.indent(self.newline_and_blank(r2.0, r2.2, self.ev[v].start), inner)
            } else if column(r2.0) != 0 {
                r2.0.push(0x20)
            } else {
                r2.0
            };
            self.ml_members(self.value(o3, inner, v), inner, i, k + 1)
        }
    }

    /// `o` followed by array `i` on one line.
    pub open spec fn sl_array(self, o: Seq<u8>, level: int, i: int) -> Seq<u8>
        decreases self.ev.len() - i, 2int, 0int,
    {
        let open = self.ev[i].start;
        let close = self.ev[i].end - 1;
        let o1 = o.push(0x5b);
        let e = self.kids(i);
        if e.len() == 0 {
            let head = gap_items(self.t, self.cm, open + 1, close);
            if head.len() == 0 {
                o1.push(0x5d)
            } else {
                self.gap_comments_from(o1.push(0x20), head, 0, true).push(0x5d)
            }
        } else {
            let head = gap_items(self.t, self.cm, open + 1, self.ev[e[0]].start);
            let o2 = self.gap_comments_from(o1, head, 0, false);
            let o3 = self.sl_elems(o2, level, i, 0, head.len() > 0);
            let last_end = self.ev[e.last()].end;
            let tail = self.trailing(i, false, gap_items(self.t, self.cm, last_end, close));
            self.inline_from(o3, tail, 0).push(0x5d)
        }
    }

    /// `o` followed by the elements of array `i` from the `k`-th on, on one line.
    pub open spec fn sl_elems(self, o: Seq<u8>, level: int, i: int, k: int, head: bool) -> Seq<u8>
        decreases self.ev.len() - i, 1int, self.kids(i).len() - k,
    {
        let e = self.kids(i);
        if k < 0 || k >= e.len() || !(i < e[k] < self.ev.len()) {
            o
        } else {
            let c = e[k];
            let o1 = if k > 0 {
                self.inline_from(o, gap_items(self.t, self.cm, self.ev[e[k - 1]].end, self.ev[c].start), 0).push(0x20)
            } else if head {
                o.push(0x20)
            } else {
                o
            };
            self.sl_elems(self.value(o1, level, c), level, i, k + 1, head)
        }
    }

    /// `o` followed by object `i` on one line.
    pub open spec fn sl_object(self, o: Seq<u8>, level: int, i: int) -> Seq<u8>
        decreases self.ev.len() - i, 2int, 0int,
    {
        let open = self.ev[i].start;
        let close = self.ev[i].end - 1;
        let o1 = o.push(0x7b);
        let m = self.members(i);
        if m.len() == 0 {
            let head = gap_items(self.t, self.cm, open + 1, close);
            if head.len() == 0 {
                o1.push(0x7d)
            } else {
                self.gap_comments_from(o1.push(0x20), head, 0, true).push(0x7d)
            }
        } else {
            let head = gap_items(self.t, self.cm, open + 1, self.ev[m[0].0].start);
            let o2 = self.gap_comments_from(o1, head, 0, false);
            let o3 = self.sl_members(o2, level, i, 0, head.len() > 0);
            let last_end = self.ev[m.last().1].end;
            let tail = self.trailing(i, false, gap_items(self.t, self.cm, last_end, close));
            self.inline_from(o3, tail, 0).push(0x7d)
        }
    }

    /// `o` followed by the members of object `i` from the `k`-th on, on one line.
    pub open spec fn sl_members(self, o: Seq<u8>, level: int, i: int, k: int, head: bool) -> Seq<u8>
        decreases self.ev.len() - i, 1int, self.members(i).len() - k,
    {
        let m = self.members(i);
        if k < 0 || k >= m.len() || !(i < m[k].1 < self.ev.len()) {
            o
        } else {
            let key = m[k].0;
            let v = m[k].1;
            let o1 = if k > 0 {
                self.inline_from(o, gap_items(self.t, self.cm, self.ev[m[k - 1].1].end, self.ev[key].start), 0).push(0x20)
            } else if head {
                o.push(0x20)
            } else {
                o
            };
            let o2 = o1 + self.t.subrange(self.ev[key].start, self.ev[key].end);
            let o3 = self.inline_from(o2, gap_items(self.t, self.cm, self.ev[key].end, self.ev[v].start), 0).push(0x20);
            self.sl_members(self.value(o3, level, v), level, i, k + 1, head)
        }
    }

    /// The formatted text: the comments before the top-level value, the value, and
    /// the comments after it.
    pub open spec fn layout(self) -> Seq<u8> {
        let rs = self.ev[0].start;
        let re = self.ev[0].end;
        let first_after = split_at(self.cm, rs, false);
        let leading = comments_from(self.cm, 0, first_after, 0);
        let r = self.gap(seq![], 0, 0, leading, true, false);
        let root_line = line_breaks(self.t, self.cm, 0, rs);
        let o1 = if root_line > r.1 {
            let x = r.0.push(0x0a);
            if has_blank(self.t, self.cm, r.2, rs) {
                x.push(0x0a)
            } else {
                x
            }
        } else if column(r.0) != 0 {
            r.0.push(0x20)
        } else {
            r.0
        };
        let o2 = self.value(o1, 0, 0);
        let trailing = comments_from(self.cm, first_after, self.cm.len() as int, re);
        self.gap(o2, 0, re, trailing, false, false).0
    }
}

/// `o` is not empty and does not end with a line feed.
pub open spec fn ends_open(o: Seq<u8>) -> bool {
    o.len() > 0 && o.last() != 0x0a
}

pub proof fn lemma_lead_spaces(t: Seq<u8>, p: int, e: int)
    requires
        0 <= p <= e <= t.len(),
    ensures
        0 <= lead_spaces(t, p, e) <= e - p,
        forall|k: int| p <= k < p + lead_spaces(t, p, e) ==> #[trigger] t[k] == 0x20,
    decreases e - p,
{
    if p < e && t[p] == 0x20 {
        lemma_lead_spaces(t, p + 1, e);
    }
}

pub proof fn lemma_next_lf(t: Seq<u8>, p: int, b: int)
    requires
        0 <= p <= b <= t.len(),
    ensures
        p <= next_lf(t, p, b) <= b,
        next_lf(t, p, b) < b ==> t[next_lf(t, p, b)] == 0x0a,
        forall|k: int| p <= k < next_lf(t, p, b) ==> #[trigger] t[k] != 0x0a,
    decreases b - p,
{
    if p < b && t[p] != 0x0a {
        lemma_next_lf(t, p + 1, b);
    }
}

/// The comments of a text split at every position.
pub proof fn lemma_split_from(t: Seq<u8>, cm: Seq<(int, int)>, pos: int, k: int)
    requires
        comments_ok(t, cm, t.len() as int),
        0 <= k <= cm.len(),
        forall|j: int| 0 <= j < k ==> comment_before(cm, j, pos, false),
    ensures
        exists|r: int| splits(cm, pos, false, r),
    decreases cm.len() - k,
{
    if k == cm.len() {
        assert(splits(cm, pos, false, k));
    } else if comment_before(cm, k, pos, false) {
        lemma_split_from(t, cm, pos, k + 1);
    } else {
        assert forall|j: int| k <= j < cm.len() implies !comment_before(cm, j, pos, false) by {
            if j > k {
                assert(cm[k].1 <= cm[j].0);
                assert(comment_ok(t, cm[j].0, cm[j].1));
            }
        }
        assert(splits(cm, pos, false, k));
    }
}

/// The comments `comments_from` picks are comments of `t`.
proof fn lemma_comments_from_ok(t: Seq<u8>, cm: Seq<(int, int)>, lo: int, hi: int, from: int)
    requires
        comments_ok(t, cm, t.len() as int),
        t.len() <= usize::MAX,
        0 <= lo,
        hi <= cm.len(),
    ensures
        items_ok(t, comments_from(cm, lo, hi, from)),
    decreases hi - lo,
{
    if lo < hi {
        lemma_comments_from_ok(t, cm, lo, hi - 1, from);
        let prev = comments_from(cm, lo, hi - 1, from);
        let r = comments_from(cm, lo, hi, from);
        assert(comment_ok(t, cm[hi - 1].0, cm[hi - 1].1) && cm[hi - 1].1 <= t.len());
        assert forall|i: int| 0 <= i < r.len() implies match #[trigger] r[i] {
            Item::Comment(a, b) => comment_ok(t, a as int, b as int),
            Item::Comma(p) => p <= t.len(),
            Item::Colon(p) => p <= t.len(),
        } by {
            if i < prev.len() {
                assert(r[i] == prev[i]);
                let x = prev[i];
            }
        }
    }
}

impl Doc {
    proof fn lemma_block_lines_end(
        self,
        o: Seq<u8>,
        b: int,
        ls: int,
        first: bool,
        in_col: int,
        out_col: int,
    )
        requires
            0 <= ls < b <= self.t.len(),
            self.t[b - 1] == 0x2f,
        ensures
            ends_open(self.block_lines(o, b, ls, first, in_col, out_col)),
        decreases b - ls,
    {
        let t = self.t;
        lemma_next_lf(t, ls, b);
        let le = next_lf(t, ls, b);
        if le >= b {
            if !first {
                lemma_lead_spaces(t, ls, b);
                let lead = lead_spaces(t, ls, b);
                if ls + lead >= b {
                    assert(t[b - 1] == 0x20);
                }
            }
        } else {
            assert(le != b - 1);
            let line_end = if le > ls && t[le - 1] == 0x0d {
                le - 1
            } else {
                le
            };
            let o2 = if first {
                o + t.subrange(ls, line_end)
            } else {
                let lead = lead_spaces(t, ls, line_end);
                let adjusted = if out_col >= in_col {
                    sat_add(lead, out_col - in_col)
                } else if lead >= in_col - out_col {
                    lead - (in_col - out_col)
                } else {
                    0
                };
                o.push(0x0a) + spaces(adjusted as nat) + t.subrange(ls + lead, line_end)
            };
            self.lemma_block_lines_end(o2, b, le + 1, false, in_col, out_col);
        }
    }

    proof fn lemma_comment_end(self, o: Seq<u8>, a: int, b: int)
        requires
            comment_ok(self.t, a, b),
        ensures
            ends_open(self.comment(o, a, b)),
    {
        let t = self.t;
        if t[a + 1] == 0x2f {
            let end = if t[b - 1] == 0x0d && b < t.len() && t[b] == 0x0a {
                b - 1
            } else {
                b
            };
            let r = o + t.subrange(a, end);
            assert(r.last() == t[end - 1]);
            if end - 1 >= a + 2 {
                assert(t[end - 1] != 0x0a);
            }
        } else {
            self.lemma_block_lines_end(o, b, a, true, a - line_start(t, a), column(o) as int);
        }
    }

    proof fn lemma_gap_from_end(
        self,
        o: Seq<u8>,
        level: int,
        prev_end: int,
        items: Seq<Item>,
        k: int,
        at_ls: bool,
        last_line: int,
        lce: int,
        force: bool,
    )
        requires
            items_ok(self.t, items),
            ends_open(o),
        ensures
            ends_open(self.gap_from(o, level, prev_end, items, k, at_ls, last_line, lce, force).0),
        decreases items.len() - k,
    {
        if 0 <= k < items.len() {
            let item = items[k];
            let pos = item.spec_position() as int;
            let line = if force {
                last_line + 1
            } else {
                line_breaks(self.t, self.cm, prev_end, pos)
            };
            let o1 = if line > last_line {
                self.indent(self.newline_and_blank(o, lce, pos), level)
            } else {
                o
            };
            let at1 = if line > last_line {
                true
            } else {
                at_ls
            };
            match item {
                Item::Comment(a, b) => {
                    let oc = if !at1 {
                        o1.push(0x20)
                    } else {
                        o1
                    };
                    self.lemma_comment_end(oc, a as int, b as int);
                    self.lemma_gap_from_end(
                        self.comment(oc, a as int, b as int),
                        level,
                        prev_end,
                        items,
                        k + 1,
                        false,
                        line,
                        b as int,
                        force,
                    );
                },
                Item::Comma(_) => {
                    self.lemma_gap_from_end(
                        o1.push(0x2c),
                        level,
                        prev_end,
                        items,
                        k + 1,
                        false,
                        line,
                        lce,
                        force,
                    );
                },
                Item::Colon(_) => {
                    self.lemma_gap_from_end(
                        o1.push(0x3a),
                        level,
                        prev_end,
                        items,
                        k + 1,
                        false,
                        line,
                        lce,
                        force,
                    );
                },
            }
        }
    }

    proof fn lemma_value_end(self, o: Seq<u8>, level: int, i: int)
        requires
            index_wf(self.t, self.ev),
            0 <= i < self.ev.len(),
        ensures
            ends_open(self.value(o, level, i)),
    {
        assert(entry_in(self.t, self.ev, i, self.ev.len() as int));
        let e = self.ev[i];
        if e.kind != JsonValueKind::Array && e.kind != JsonValueKind::Object {
            let r = o + self.t.subrange(e.start, e.end);
            assert(r.last() == self.t[e.end - 1]);
        }
    }
}

/// The formatted text never ends with a line feed: whatever the settings, the text
/// that the JSONC formatter lays out for an accepted input is not empty and its last
/// byte is no line feed.
pub proof fn lemma_layout_no_trailing_line_feed(f: JsoncFormatter, t: Seq<u8>)
    requires
        parse_text(t, true) is Ok,
        t.len() <= usize::MAX,
    ensures
        ({
            let (ev, cm) = parse_text(t, true)->Ok_0;
            ends_open(Doc { t, cm, ev, f }.layout())
        }),
{
    let (ev, cm) = parse_text(t, true)->Ok_0;
    lemma_parse_text_wf(t, true);
    lemma_parse_text_comments(t, true);
    let d = Doc { t, cm, ev, f };
    let rs = ev[0].start;
    let re = ev[0].end;
    let first_after = split_at(cm, rs, false);
    let leading = comments_from(cm, 0, first_after, 0);
    let r = d.gap(seq![], 0, 0, leading, true, false);
    let root_line = line_breaks(t, cm, 0, rs);
    let o1 = if root_line > r.1 {
        let x = r.0.push(0x0a);
        if has_blank(t, cm, r.2, rs) {
            x.push(0x0a)
        } else {
            x
        }
    } else if column(r.0) != 0 {
        r.0.push(0x20)
    } else {
        r.0
    };
    d.lemma_value_end(o1, 0, 0);
    let o2 = d.value(o1, 0, 0);
    let trailing = comments_from(cm, first_after, cm.len() as int, re);
    lemma_split_from(t, cm, rs, 0);
    assert(splits(cm, rs, false, first_after));
    lemma_comments_from_ok(t, cm, first_after, cm.len() as int, re);
    d.lemma_gap_from_end(o2, 0, re, trailing, 0, false, 0, re, false);
}

} // verus!
