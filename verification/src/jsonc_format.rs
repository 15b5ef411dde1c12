//! Configurable JSONC formatting ([`JsoncFormatter`]).
use core::ops::Range;
use vstd::prelude::*;
use vstd::string::StringSliceAdditionalSpecFns;
use vstd::utf8::{valid_utf8, is_char_boundary, decode_utf8};
use crate::comments::{comment_ok, comments_ok};
use crate::error::line_start;
use crate::grammar::Entry;
use crate::raw::{chain, children, pairs};
use crate::jsonc_layout::{
    Doc,
    Item,
    sat_add,
    items_ok,
    comment_before,
    split_at,
    lemma_split_at,
    comment_starts,
    scan_from,
    gap_items,
    lf_count,
    lines_from,
    line_breaks,
    blank_from,
    has_blank,
    newline_from,
    lemma_lf_count_mono,
    has_newline,
    next_lf,
    lead_spaces,
    spaces,
    bsearch,
    drop_commas,
    lemma_chain_bounds,
    comments_from,
};
use crate::error::{JsonParseError, error_matches};
use crate::grammar::parse_text;
use crate::kind::JsonValueKind;
use crate::parse::{comments_view, entries_view, entries_wf};
use crate::raw::RawJson;
use crate::slices::{
    ascii_edge, lemma_ascii_byte_valid, lemma_ascii_edge_boundary, lemma_concat_valid,
    lemma_slice_valid, lemma_str_valid,
};
use crate::structure::{entry_in, index_wf};
use crate::values::JsonValueIndexEntry;

verus! {

/// Settings for the JSONC formatter.
///
/// [`JsoncFormatter::format`] re-emits a JSONC text with normalized whitespace and
/// line breaks, keeping comments, scalar lexemes and member order.
#[derive(Debug, Clone, Copy, PartialEq, Eq, Structural)]
pub struct JsoncFormatter {
    /// Number of ASCII spaces emitted per indentation level.
    pub indent_size: usize,
    /// How line breaks inside arrays and objects are chosen.
    pub line_breaks: JsoncLineBreaks,
    /// How trailing commas are handled.
    pub trailing_commas: JsoncTrailingCommas,
}

/// Line-break policy for arrays and objects.
#[derive(Debug, Clone, Copy, PartialEq, Eq, Structural)]
pub enum JsoncLineBreaks {
    /// Keep each array and object on a single line or on multiple lines according
    /// to whether the input had a physical line break inside it.
    Preserve,
    /// Put every array and object that contains an element, a member, or a comment
    /// onto multiple lines. Truly empty `[]` and `{}` stay single-line.
    Always,
}

/// Trailing-comma policy, applied identically to arrays and objects.
#[derive(Debug, Clone, Copy, PartialEq, Eq, Structural)]
pub enum JsoncTrailingCommas {
    /// Keep a trailing comma from the input in place.
    Preserve,
    /// Add a trailing comma to multi-line containers that contain at least one
    /// element or member; remove it from single-line containers.
    AlwaysMultiline,
    /// Remove trailing commas from arrays and objects.
    Never,
}

/// The number of bytes after the last line feed of `s` (all of `s` when it has none).
pub open spec fn column(s: Seq<u8>) -> nat
    decreases s.len(),
{
    if s.len() == 0 {
        0
    } else if s.last() == 0x0a {
        0
    } else {
        column(s.drop_last()) + 1
    }
}

proof fn lemma_column_push(s: Seq<u8>, c: u8)
    ensures
        column(s.push(c)) == (if c == 0x0a {
            0
        } else {
            column(s) + 1
        }),
        column(s) <= s.len(),
    decreases s.len(),
{
    assert(s.push(c).drop_last() =~= s);
    if s.len() > 0 {
        lemma_column_push(s.drop_last(), s.last());
        assert(s.drop_last().push(s.last()) =~= s);
    }
}

/// Output buffer that tracks the byte column of the current line.
struct Out {
    s: Vec<u8>,
    col: usize,
}

impl Out {
    spec fn wf(&self) -> bool {
        &&& self.col == column(self.s@)
        &&& valid_utf8(self.s@)
    }

    fn new() -> (o: Self)
        ensures
            o.wf(),
            o.s@ == Seq::<u8>::empty(),
    {
        let o = Out { s: Vec::new(), col: 0 };
        proof {
            assert(valid_utf8(o.s@));
        }
        o
    }

    /// Appends one ASCII byte.
    fn push(&mut self, c: u8)
        requires
            old(self).wf(),
            c < 0x80,
        ensures
            final(self).wf(),
            final(self).s@ == old(self).s@.push(c),
    {
        proof {
            lemma_column_push(self.s@, c);
            lemma_ascii_byte_valid(c);
            lemma_concat_valid(self.s@, seq![c]);
            assert(self.s@ + seq![c] =~= self.s@.push(c));
        }
        self.s.push(c);
        let n = self.s.len();
        if c == 0x0a {
            self.col = 0;
        } else {
            self.col = self.col + 1;
        }
        proof {
            assert(n == self.s@.len());
        }
    }

    /// Appends the bytes `t[a..c]`, which lie between two character boundaries.
    fn push_bytes(&mut self, t: &[u8], a: usize, c: usize)
        requires
            old(self).wf(),
            valid_utf8(t@),
            a <= c <= t@.len(),
            is_char_boundary(t@, a as int),
            is_char_boundary(t@, c as int),
        ensures
            final(self).wf(),
            final(self).s@ == old(self).s@ + t@.subrange(a as int, c as int),
    {
        let ghost s0 = self.s@;
        let mut k = a;
        while k < c
            invariant
                a <= k <= c <= t@.len(),
                self.s@ == s0 + t@.subrange(a as int, k as int),
                self.col == column(self.s@),
            decreases c - k,
        {
            let b = t[k];
            proof {
                lemma_column_push(self.s@, b);
                assert(s0 + t@.subrange(a as int, k + 1) =~= self.s@.push(b));
            }
            self.s.push(b);
            let n = self.s.len();
            if b == 0x0a {
                self.col = 0;
            } else {
                self.col = self.col + 1;
            }
            proof {
                assert(n == self.s@.len());
            }
            k = k + 1;
        }
        proof {
            lemma_slice_valid(t@, a as int, c as int);
            lemma_concat_valid(s0, t@.subrange(a as int, c as int));
        }
    }

    /// Appends `n` spaces.
    fn push_spaces(&mut self, n: usize)
        requires
            old(self).wf(),
        ensures
            final(self).wf(),
            final(self).s@ == old(self).s@ + Seq::new(n as nat, |i: int| 0x20u8),
    {
        let ghost s0 = self.s@;
        let mut k: usize = 0;
        while k < n
            invariant
                k <= n,
                self.wf(),
                self.s@ == s0 + Seq::new(k as nat, |i: int| 0x20u8),
            decreases n - k,
        {
            self.push(0x20);
            k = k + 1;
            proof {
                assert(self.s@ =~= s0 + Seq::new(k as nat, |i: int| 0x20u8));
            }
        }
    }

    fn column(&self) -> (c: usize)
        ensures
            c == self.col,
    {
        self.col
    }
}

/// `String::from_utf8`: std documents that it gives back the string made of exactly
/// `bytes` when they are valid UTF-8, and an error otherwise.
#[verifier::external_body]
fn string_from_utf8(bytes: Vec<u8>) -> (r: Option<String>)
    ensures
        r is Some <==> valid_utf8(bytes@),
        r matches Some(s) ==> s@ == decode_utf8(bytes@),
{
    String::from_utf8(bytes).ok()
}


/// A value of the document: its byte span in the text and its direct children.
/// Scalar lexemes are re-emitted verbatim from the text.
struct Node {
    start: usize,
    end: usize,
    children: Children,
}

enum Children {
    Leaf,
    Array(Vec<Node>),
    Object(Vec<(Node, Node)>),
}

/// Every span of the tree lies in `t` and begins and ends on an ASCII byte.
spec fn node_wf(t: Seq<u8>, n: Node) -> bool
    decreases n,
{
    &&& n.start < n.end <= t.len()
    &&& t[n.start as int] < 0x80
    &&& t[n.end - 1] < 0x80
    &&& match n.children {
        Children::Leaf => true,
        Children::Array(v) => forall|i: int| 0 <= i < v@.len() ==> node_wf(t, #[trigger] v@[i]),
        Children::Object(v) => forall|i: int|
            0 <= i < v@.len() ==> node_wf(t, (#[trigger] v@[i]).0) && node_wf(t, v@[i].1),
    }
}

proof fn lemma_elem_wf(t: Seq<u8>, node: Node, elems: Vec<Node>, i: int)
    requires
        node_wf(t, node),
        node.children == Children::Array(elems),
        0 <= i < elems@.len(),
    ensures
        node_wf(t, elems@[i]),
        node.start < node.end <= t.len(),
{
    reveal_with_fuel(node_wf, 2);
    let v = node.children->Array_0;
    assert(v == elems);
    assert(forall|k: int| 0 <= k < v@.len() ==> node_wf(t, #[trigger] v@[k]));
}

proof fn lemma_member_wf(t: Seq<u8>, node: Node, members: Vec<(Node, Node)>, i: int)
    requires
        node_wf(t, node),
        node.children == Children::Object(members),
        0 <= i < members@.len(),
    ensures
        node_wf(t, members@[i].0),
        node_wf(t, members@[i].1),
        node.start < node.end <= t.len(),
{
    reveal_with_fuel(node_wf, 2);
    let v = node.children->Object_0;
    assert(v == members);
    assert(forall|k: int|
        0 <= k < v@.len() ==> node_wf(t, (#[trigger] v@[k]).0) && node_wf(t, v@[k].1));
}

proof fn lemma_elem_decreases(node: Node, elems: Vec<Node>, i: int)
    requires
        node.children == Children::Array(elems),
        0 <= i < elems@.len(),
    ensures
        decreases_to!(node => elems@[i]),
{
    let v = node.children->Array_0;
    assert(decreases_to!(node => node.children));
    assert(decreases_to!(node.children => v));
    assert(decreases_to!(v => v@));
    assert(decreases_to!(v@ => v@[i]));
}

proof fn lemma_member_decreases(node: Node, members: Vec<(Node, Node)>, i: int)
    requires
        node.children == Children::Object(members),
        0 <= i < members@.len(),
    ensures
        decreases_to!(node => members@[i].0),
        decreases_to!(node => members@[i].1),
{
    let v = node.children->Object_0;
    assert(decreases_to!(node => node.children));
    assert(decreases_to!(node.children => v));
    assert(decreases_to!(v => v@));
    assert(decreases_to!(v@ => v@[i]));
    assert(decreases_to!(v@[i] => v@[i].0));
    assert(decreases_to!(v@[i] => v@[i].1));
}

/// `n` is the tree of the value recorded at index `i` of `ev`: its span, and the
/// trees of its elements, or of its member names and values, in order.
spec fn represents(ev: Seq<Entry>, n: Node, i: int) -> bool
    decreases n,
{
    &&& 0 <= i < ev.len()
    &&& n.start == ev[i].start
    &&& n.end == ev[i].end
    &&& match n.children {
        Children::Leaf => ev[i].kind != JsonValueKind::Array && ev[i].kind != JsonValueKind::Object,
        Children::Array(v) => ev[i].kind == JsonValueKind::Array && v@.len() == children(
            ev,
            i,
        ).len() && forall|k: int|
            0 <= k < v@.len() ==> represents(ev, #[trigger] v@[k], children(ev, i)[k]),
        Children::Object(v) => ev[i].kind == JsonValueKind::Object && v@.len() == pairs(
            children(ev, i),
        ).len() && forall|m: int|
            0 <= m < v@.len() ==> represents(ev, (#[trigger] v@[m]).0, pairs(children(ev, i))[m].0)
                && represents(ev, v@[m].1, pairs(children(ev, i))[m].1),
    }
}

proof fn lemma_elem_represents(ev: Seq<Entry>, node: Node, elems: Vec<Node>, i: int, k: int)
    requires
        represents(ev, node, i),
        node.children == Children::Array(elems),
        0 <= k < elems@.len(),
    ensures
        represents(ev, elems@[k], children(ev, i)[k]),
        elems@.len() == children(ev, i).len(),
        ev[i].kind == JsonValueKind::Array,
{
    reveal_with_fuel(represents, 2);
    let v = node.children->Array_0;
    assert(v == elems);
    assert(forall|q: int| 0 <= q < v@.len() ==> represents(ev, #[trigger] v@[q], children(ev, i)[q]));
}

proof fn lemma_member_represents(ev: Seq<Entry>, node: Node, members: Vec<(Node, Node)>, i: int, m: int)
    requires
        represents(ev, node, i),
        node.children == Children::Object(members),
        0 <= m < members@.len(),
    ensures
        represents(ev, members@[m].0, pairs(children(ev, i))[m].0),
        represents(ev, members@[m].1, pairs(children(ev, i))[m].1),
        members@.len() == pairs(children(ev, i)).len(),
        ev[i].kind == JsonValueKind::Object,
{
    reveal_with_fuel(represents, 2);
    let v = node.children->Object_0;
    assert(v == members);
    assert(forall|q: int|
        0 <= q < v@.len() ==> represents(ev, (#[trigger] v@[q]).0, pairs(children(ev, i))[q].0)
            && represents(ev, v@[q].1, pairs(children(ev, i))[q].1));
}

/// The tree of the value recorded at `i`, built from the value index.
fn build_node(t: Ghost<Seq<u8>>, values: &Vec<JsonValueIndexEntry>, i: usize) -> (n: Node)
    requires
        index_wf(t@, entries_view(values@)),
        entries_wf(values@),
        i < values@.len(),
    ensures
        node_wf(t@, n),
        represents(entries_view(values@), n, i as int),
    decreases values@[i as int]@.end_index - i,
{
    let ghost ev = entries_view(values@);
    proof {
        assert(entry_in(t@, ev, i as int, ev.len() as int));
        assert(values@[i as int]@ == ev[i as int]);
    }
    let e = &values[i];
    let end = e.end_index();
    let ghost whole = chain(ev, i + 1, end as int);
    let children = match e.kind() {
        JsonValueKind::Array => {
            let mut v: Vec<Node> = Vec::new();
            let mut j = i + 1;
            let ghost mut prefix: Seq<int> = Seq::empty();
            while j < end
                invariant
                    index_wf(t@, ev),
                    ev == entries_view(values@),
                    entries_wf(values@),
                    i < j <= end,
                    end == ev[i as int].end_index,
                    end <= values@.len(),
                    entry_in(t@, ev, i as int, ev.len() as int),
                    whole == chain(ev, i + 1, end as int),
                    whole == prefix + chain(ev, j as int, end as int),
                    prefix.len() == v@.len(),
                    forall|k: int|
                        0 <= k < v@.len() ==> node_wf(t@, #[trigger] v@[k]) && represents(
                            ev,
                            v@[k],
                            prefix[k],
                        ),
                decreases end - j,
            {
                proof {
                    assert(entry_in(t@, ev, j as int, ev.len() as int));
                    assert(ev[j as int].end_index <= ev[i as int].end_index);
                    assert(values@[j as int]@ == ev[j as int]);
                }
                let child = build_node(t, values, j);
                let next = values[j].end_index();
                proof {
                    assert(chain(ev, j as int, end as int) == seq![j as int] + chain(
                        ev,
                        next as int,
                        end as int,
                    ));
                    assert(prefix.push(j as int) + chain(ev, next as int, end as int) =~= prefix
                        + chain(ev, j as int, end as int));
                    prefix = prefix.push(j as int);
                }
                v.push(child);
                j = next;
            }
            proof {
                assert(chain(ev, j as int, end as int) =~= Seq::<int>::empty());
                assert(prefix =~= whole);
            }
            Children::Array(v)
        },
        JsonValueKind::Object => {
            let mut v: Vec<(Node, Node)> = Vec::new();
            let mut j = i + 1;
            let ghost mut prefix: Seq<int> = Seq::empty();
            let mut done = false;
            while j < end && !done
                invariant
                    index_wf(t@, ev),
                    ev == entries_view(values@),
                    entries_wf(values@),
                    i < j <= end,
                    end == ev[i as int].end_index,
                    end <= values@.len(),
                    entry_in(t@, ev, i as int, ev.len() as int),
                    whole == chain(ev, i + 1, end as int),
                    !done ==> whole == prefix + chain(ev, j as int, end as int),
                    done ==> whole == prefix.push(j as int),
                    prefix.len() == 2 * v@.len(),
                    forall|k: int|
                        0 <= k < v@.len() ==> node_wf(t@, (#[trigger] v@[k]).0) && node_wf(
                            t@,
                            v@[k].1,
                        ) && represents(ev, v@[k].0, prefix[2 * k]) && represents(
                            ev,
                            v@[k].1,
                            prefix[2 * k + 1],
                        ),
                decreases end - j, if done { 0int } else { 1int },
            {
                proof {
                    assert(entry_in(t@, ev, j as int, ev.len() as int));
                    assert(ev[j as int].end_index <= ev[i as int].end_index);
                    assert(values@[j as int]@ == ev[j as int]);
                }
                let key = build_node(t, values, j);
                let k = values[j].end_index();
                proof {
                    assert(chain(ev, j as int, end as int) == seq![j as int] + chain(
                        ev,
                        k as int,
                        end as int,
                    ));
                }
                if k >= end {
                    proof {
                        assert(chain(ev, k as int, end as int) =~= Seq::<int>::empty());
                        assert(whole =~= prefix.push(j as int));
                    }
                    done = true;
                } else {
                    proof {
                        assert(entry_in(t@, ev, k as int, ev.len() as int));
                        assert(ev[k as int].end_index <= ev[i as int].end_index);
                        assert(values@[k as int]@ == ev[k as int]);
                    }
                    let value = build_node(t, values, k);
                    let next = values[k].end_index();
                    proof {
                        assert(chain(ev, k as int, end as int) == seq![k as int] + chain(
                            ev,
                            next as int,
                            end as int,
                        ));
                        assert(prefix.push(j as int).push(k as int) + chain(ev, next as int, end as int)
                            =~= prefix + chain(ev, j as int, end as int));
                        prefix = prefix.push(j as int).push(k as int);
                    }
                    v.push((key, value));
                    j = next;
                }
            }
            proof {
                if !done {
                    assert(chain(ev, j as int, end as int) =~= Seq::<int>::empty());
                    assert(prefix =~= whole);
                }
                assert(pairs(whole).len() == v@.len());
                assert forall|m: int| 0 <= m < v@.len() implies pairs(whole)[m] == (
                prefix[2 * m], prefix[2 * m + 1]) by {
                    assert(whole[2 * m] == prefix[2 * m]);
                    assert(whole[2 * m + 1] == prefix[2 * m + 1]);
                }
            }
            Children::Object(v)
        },
        _ => Children::Leaf,
    };
    Node { start: e.text_start(), end: e.text_end(), children }
}

/// What the formatter reads: the text, its comments, and the settings.
struct Cx<'a> {
    text: &'a [u8],
    comments: &'a Vec<Range<usize>>,
    settings: JsoncFormatter,
    ev: Ghost<Seq<Entry>>,
}

impl<'a> Cx<'a> {
    spec fn t(&self) -> Seq<u8> {
        self.text@
    }

    /// The document that the formatter lays out.
    spec fn doc(&self) -> Doc {
        Doc { t: self.t(), cm: self.cm(), ev: self.ev@, f: self.settings }
    }

    spec fn cm(&self) -> Seq<(int, int)> {
        comments_view(self.comments@)
    }

    spec fn wf(&self) -> bool {
        &&& valid_utf8(self.text@)
        &&& self.text@.len() <= usize::MAX
        &&& comments_ok(self.text@, self.cm(), self.text@.len() as int)
        &&& index_wf(self.text@, self.ev@)
    }

    /// The number of comments that lie before `pos` (see [`comment_before`]); the
    /// comments are in text order, so these are a prefix of the list.
    fn comments_before(&self, pos: usize, by_start: bool) -> (r: usize)
        requires
            self.wf(),
        ensures
            r <= self.cm().len(),
            forall|k: int| 0 <= k < r ==> comment_before(self.cm(), k, pos as int, by_start),
            forall|k: int|
                r <= k < self.cm().len() ==> !comment_before(self.cm(), k, pos as int, by_start),
            r == split_at(self.cm(), pos as int, by_start),
    {
        let ghost cm = self.cm();
        let n = self.comments.len();
        let mut lo: usize = 0;
        let mut hi: usize = n;
        while lo < hi
            invariant
                self.wf(),
                cm == self.cm(),
                n == cm.len(),
                0 <= lo <= hi <= n,
                forall|k: int| 0 <= k < lo ==> comment_before(cm, k, pos as int, by_start),
                forall|k: int| hi <= k < n ==> !comment_before(cm, k, pos as int, by_start),
            decreases hi - lo,
        {
            let mid = lo + (hi - lo) / 2;
            let c = &self.comments[mid];
            let before = if by_start {
                c.start < pos
            } else {
                c.end <= pos
            };
            proof {
                assert(cm[mid as int] == (c.start as int, c.end as int));
                assert(before == comment_before(cm, mid as int, pos as int, by_start));
                assert(comment_ok(self.t(), cm[mid as int].0, cm[mid as int].1));
                assert forall|k: int| 0 <= k < mid implies cm[k].1 <= cm[mid as int].0 by {
                    assert(cm[k].1 <= cm[mid as int].0);
                }
                assert forall|k: int| mid < k < n implies cm[mid as int].1 <= cm[k].0 by {
                    assert(cm[mid as int].1 <= cm[k].0);
                }
                assert forall|k: int| 0 <= k < n implies cm[k].0 < cm[k].1 by {
                    assert(comment_ok(self.t(), cm[k].0, cm[k].1));
                }
            }
            if before {
                lo = mid + 1;
            } else {
                hi = mid;
            }
        }
        proof {
            lemma_split_at(cm, pos as int, by_start, lo as int);
        }
        lo
    }

    /// Returns the items (comments and structural punctuation) inside `[start, end)`
    /// in source order.
    fn scan_gap(&self, start: usize, end: usize) -> (items: Vec<Item>)
        requires
            self.wf(),
            end <= self.t().len(),
        ensures
            items@ == gap_items(self.t(), self.cm(), start as int, end as int),
            items_ok(self.t(), items@),
            forall|i: int| 0 <= i < items@.len() ==> start <= (#[trigger] items@[i]).spec_position() < end,
    {
        let ghost cm = self.cm();
        let n = self.comments.len();
        let mut items: Vec<Item> = Vec::new();
        if start >= end {
            return items;
        }
        let mut p = start;
        let mut ci = self.comments_before(start, true);
        let ghost whole = gap_items(self.t(), cm, start as int, end as int);
        while p < end
            invariant
                self.wf(),
                cm == self.cm(),
                n == cm.len(),
                start <= p,
                p <= self.t().len(),
                end <= self.t().len(),
                ci <= n,
                items@ + scan_from(self.t(), cm, p as int, ci as int, end as int) == whole,
                items_ok(self.t(), items@),
                forall|i: int| 0 <= i < items@.len() ==> start <= (#[trigger] items@[i]).spec_position() < end,
            decreases self.t().len() - p,
        {
            if ci < n && self.comments[ci].start == p {
                let c = &self.comments[ci];
                proof {
                    assert(cm[ci as int] == (c.start as int, c.end as int));
                    assert(comment_ok(self.t(), cm[ci as int].0, cm[ci as int].1));
                    assert(comment_starts(self.t(), cm, ci as int, p as int));
                }
                let ghost old_items = items@;
                items.push(Item::Comment(c.start, c.end));
                proof {
                    assert(items@ + scan_from(self.t(), cm, c.end as int, ci + 1, end as int) =~= old_items + scan_from(self.t(), cm, p as int, ci as int, end as int));
                }
                p = c.end;
                ci = ci + 1;
            } else {
                proof {
                    if (ci as int) < (n as int) {
                        assert(cm[ci as int].0 == self.comments@[ci as int].start);
                    }
                    assert(!comment_starts(self.t(), cm, ci as int, p as int));
                }
                let b = self.text[p];
                let ghost old_items = items@;
                if b == 0x2c {
                    items.push(Item::Comma(p));
                } else if b == 0x3a {
                    items.push(Item::Colon(p));
                }
                proof {
                    assert(items@ + scan_from(self.t(), cm, p + 1, ci as int, end as int) =~= old_items + scan_from(self.t(), cm, p as int, ci as int, end as int));
                }
                p = p + 1;
            }
        }
        proof {
            assert(items@ =~= whole);
        }
        items
    }

    /// Number of line breaks in `[start, pos)`. A line feed anywhere (also inside a
    /// block comment) and a lone carriage return outside comments each count as one
    /// break; a carriage return followed by a line feed counts once.
    fn line_index(&self, start: usize, pos: usize) -> (lines: usize)
        requires
            self.wf(),
            pos <= self.t().len(),
        ensures
            lines == line_breaks(self.t(), self.cm(), start as int, pos as int),
            lines <= self.t().len(),
    {
        let ghost cm = self.cm();
        let ghost t = self.t();
        let n = self.comments.len();
        let len = self.text.len();
        let mut lines: usize = 0;
        if start >= pos {
            return 0;
        }
        let mut p = start;
        let mut ci = self.comments_before(start, false);
        let ghost whole = line_breaks(t, cm, start as int, pos as int);
        while p < pos
            invariant
                self.wf(),
                cm == self.cm(),
                t == self.t(),
                n == cm.len(),
                len == t.len(),
                pos <= len,
                p <= len,
                ci <= n,
                start <= p,
                lines <= p - start,
                lines + lines_from(t, cm, p as int, ci as int, pos as int) == whole,
            decreases len - p,
        {
            if ci < n && self.comments[ci].start == p {
                let c_end = self.comments[ci].end;
                proof {
                    assert(cm[ci as int] == (p as int, c_end as int));
                    assert(comment_ok(t, cm[ci as int].0, cm[ci as int].1));
                    assert(comment_starts(t, cm, ci as int, p as int));
                }
                let ghost lines0 = lines;
                let mut q = p;
                while q < c_end
                    invariant
                        p <= q <= c_end <= len,
                        len == t.len(),
                        t == self.t(),
                        start <= p,
                        lines <= q - start,
                        lines == lines0 + lf_count(t, p as int, q as int),
                    decreases c_end - q,
                {
                    if self.text[q] == 0x0a {
                        lines = lines + 1;
                    }
                    q = q + 1;
                }
                p = c_end;
                ci = ci + 1;
            } else {
                proof {
                    if (ci as int) < (n as int) {
                        assert(cm[ci as int].0 == self.comments@[ci as int].start);
                    }
                    assert(!comment_starts(t, cm, ci as int, p as int));
                }
                let b = self.text[p];
                if b == 0x0a {
                    lines = lines + 1;
                    p = p + 1;
                } else if b == 0x0d {
                    if len - p > 1 && self.text[p + 1] == 0x0a {
                        lines = lines + 1;
                        p = p + 2;
                    } else {
                        lines = lines + 1;
                        p = p + 1;
                    }
                } else {
                    p = p + 1;
                }
            }
        }
        lines
    }

    /// Returns `true` when `[start, pos)` contains a blank line: two line breaks
    /// separated only by spaces and tabs, with no comment in between. Line breaks
    /// inside comments are ignored.
    fn has_blank_line(&self, start: usize, pos: usize) -> (b: bool)
        requires
            self.wf(),
            pos <= self.t().len(),
        ensures
            b == has_blank(self.t(), self.cm(), start as int, pos as int),
    {
        let ghost cm = self.cm();
        let ghost t = self.t();
        let n = self.comments.len();
        let len = self.text.len();
        if start >= pos {
            return false;
        }
        let mut p = start;
        let mut ci = self.comments_before(start, false);
        let mut prev_break = false;
        let mut line_has_content = false;
        let ghost whole = has_blank(t, cm, start as int, pos as int);
        while p < pos
            invariant
                self.wf(),
                cm == self.cm(),
                t == self.t(),
                n == cm.len(),
                len == t.len(),
                pos <= len,
                p <= len,
                ci <= n,
                blank_from(t, cm, p as int, ci as int, pos as int, prev_break, line_has_content)
                    == whole,
                whole == has_blank(t, cm, start as int, pos as int),
            decreases len - p,
        {
            if ci < n && self.comments[ci].start == p {
                let c_end = self.comments[ci].end;
                proof {
                    assert(cm[ci as int] == (p as int, c_end as int));
                    assert(comment_ok(t, cm[ci as int].0, cm[ci as int].1));
                    assert(comment_starts(t, cm, ci as int, p as int));
                }
                line_has_content = true;
                p = c_end;
                ci = ci + 1;
            } else {
                proof {
                    if (ci as int) < (n as int) {
                        assert(cm[ci as int].0 == self.comments@[ci as int].start);
                    }
                    assert(!comment_starts(t, cm, ci as int, p as int));
                }
                let b = self.text[p];
                if b == 0x0a || b == 0x0d {
                    if prev_break && !line_has_content {
                        return true;
                    }
                    prev_break = true;
                    line_has_content = false;
                    if b == 0x0d && len - p > 1 && self.text[p + 1] == 0x0a {
                        p = p + 2;
                    } else {
                        p = p + 1;
                    }
                } else if b == 0x20 || b == 0x09 {
                    p = p + 1;
                } else {
                    line_has_content = true;
                    p = p + 1;
                }
            }
        }
        false
    }

    /// Returns `true` when `[start, end)` contains a physical line break: any line feed
    /// (also inside block comments) or any carriage return outside comments.
    fn has_physical_newline(&self, start: usize, end: usize) -> (b: bool)
        requires
            self.wf(),
            end <= self.t().len(),
        ensures
            b == has_newline(self.t(), self.cm(), start as int, end as int),
    {
        let ghost cm = self.cm();
        let ghost t = self.t();
        let n = self.comments.len();
        let len = self.text.len();
        if start >= end {
            return false;
        }
        let mut p = start;
        let mut ci = self.comments_before(start, false);
        let ghost whole = has_newline(t, cm, start as int, end as int);
        while p < end
            invariant
                self.wf(),
                cm == self.cm(),
                t == self.t(),
                n == cm.len(),
                len == t.len(),
                end <= len,
                p <= len,
                ci <= n,
                newline_from(t, cm, p as int, ci as int, end as int) == whole,
                whole == has_newline(t, cm, start as int, end as int),
            decreases len - p,
        {
            if ci < n && self.comments[ci].start == p {
                let c_end = self.comments[ci].end;
                proof {
                    assert(cm[ci as int] == (p as int, c_end as int));
                    assert(comment_ok(t, cm[ci as int].0, cm[ci as int].1));
                    assert(comment_starts(t, cm, ci as int, p as int));
                }
                let mut q = p;
                while q < c_end
                    invariant
                        p <= q <= c_end <= len,
                        len == t.len(),
                        t == self.t(),
                        lf_count(t, p as int, q as int) == 0,
                        whole == has_newline(t, cm, start as int, end as int),
                        newline_from(t, cm, p as int, ci as int, end as int) == whole,
                        comment_starts(t, cm, ci as int, p as int),
                        c_end == cm[ci as int].1,
                        p < end <= len,
                        cm == self.cm(),
                    decreases c_end - q,
                {
                    if self.text[q] == 0x0a {
                        proof {
                            assert(lf_count(t, p as int, q + 1) > 0);
                            lemma_lf_count_mono(t, p as int, q + 1, c_end as int);
                        }
                        return true;
                    }
                    q = q + 1;
                }
                p = c_end;
                ci = ci + 1;
            } else {
                proof {
                    if (ci as int) < (n as int) {
                        assert(cm[ci as int].0 == self.comments@[ci as int].start);
                    }
                    assert(!comment_starts(t, cm, ci as int, p as int));
                }
                let b = self.text[p];
                if b == 0x0a || b == 0x0d {
                    return true;
                }
                p = p + 1;
            }
        }
        false
    }

    /// Byte column of `pos` within its input line. A line starts after a line feed
    /// only.
    fn input_column(&self, pos: usize) -> (c: usize)
        requires
            pos <= self.t().len(),
        ensures
            c == pos - line_start(self.t(), pos as int),
            c <= pos,
    {
        let mut start = pos;
        while start > 0 && self.text[start - 1] != 0x0a
            invariant
                start <= pos <= self.t().len(),
                line_start(self.t(), start as int) == line_start(self.t(), pos as int),
            decreases start,
        {
            start = start - 1;
        }
        pos - start
    }
}

/// `a * b`, or `usize::MAX` when the product does not fit.
fn saturating_mul(a: usize, b: usize) -> (r: usize)
    ensures
        r == (if a * b <= usize::MAX {
            a * b
        } else {
            usize::MAX as int
        }),
{
    if b == 0 {
        proof {
            assert(a * b == 0) by (nonlinear_arith)
                requires
                    b == 0,
            ;
        }
        0
    } else if a > usize::MAX / b {
        proof {
            assert(a * b > usize::MAX) by (nonlinear_arith)
                requires
                    b > 0,
                    a > usize::MAX / b,
            ;
        }
        usize::MAX
    } else {
        proof {
            assert(a * b <= usize::MAX) by (nonlinear_arith)
                requires
                    b > 0,
                    a <= usize::MAX / b,
            ;
        }
        a * b
    }
}

impl<'a> Cx<'a> {
    /// Indents the current line by `indent_size` spaces per nesting level.
    fn indent(&self, out: &mut Out, level: usize)
        requires
            old(out).wf(),
        ensures
            final(out).wf(),
            final(out).s@ == self.doc().indent(old(out).s@, level as int),
    {
        let n = saturating_mul(self.settings.indent_size, level);
        out.push_spaces(n);
        proof {
            assert(out.s@ =~= self.doc().indent(old(out).s@, level as int));
        }
    }

    /// Ends the current line (unless already at its start), keeping a single blank
    /// line when the input had one between `last_content_end` and `next_pos`.
    fn newline_and_blank(&self, out: &mut Out, last_content_end: usize, next_pos: usize)
        requires
            self.wf(),
            old(out).wf(),
            next_pos <= self.t().len(),
        ensures
            final(out).wf(),
            final(out).s@ == self.doc().newline_and_blank(
                old(out).s@,
                last_content_end as int,
                next_pos as int,
            ),
    {
        if out.column() != 0 {
            out.push(0x0a);
        }
        if self.has_blank_line(last_content_end, next_pos) {
            out.push(0x0a);
        }
    }

    /// Emits the items of a gap that follows `prev_end`. Each item is placed on its
    /// own indented line when `force_own_line` is set, or when it started on a later
    /// line than the previous content in the input; otherwise it stays on the same
    /// line (comments get a leading space, commas and colons do not).
    ///
    /// Returns `(last input line, end of the last emitted comment)`.
    fn emit_gap_items(
        &self,
        out: &mut Out,
        level: usize,
        prev_end: usize,
        items: &Vec<Item>,
        initial_at_line_start: bool,
        force_own_line: bool,
    ) -> (r: (usize, usize))
        requires
            self.wf(),
            old(out).wf(),
            items_ok(self.t(), items@),
            prev_end <= self.t().len(),
        ensures
            final(out).wf(),
            r.1 <= self.t().len(),
            (final(out).s@, r.0 as int, r.1 as int) == self.doc().gap(
                old(out).s@,
                level as int,
                prev_end as int,
                items@,
                initial_at_line_start,
                force_own_line,
            ),
    {
        let ghost doc = self.doc();
        let ghost target = doc.gap(
            out.s@,
            level as int,
            prev_end as int,
            items@,
            initial_at_line_start,
            force_own_line,
        );
        let mut at_line_start = initial_at_line_start;
        let mut last_line: usize = 0;
        let mut last_content_end = prev_end;
        let mut k: usize = 0;
        while k < items.len()
            invariant
                self.wf(),
                out.wf(),
                doc == self.doc(),
                items_ok(self.t(), items@),
                prev_end <= self.t().len(),
                last_content_end <= self.t().len(),
                k <= items@.len(),
                force_own_line ==> last_line == k,
                doc.gap_from(
                    out.s@,
                    level as int,
                    prev_end as int,
                    items@,
                    k as int,
                    at_line_start,
                    last_line as int,
                    last_content_end as int,
                    force_own_line,
                ) == target,
            decreases items@.len() - k,
        {
            let item = items[k];
            proof {
                assert(items_ok(self.t(), items@));
                let it = items@[k as int];
                match it {
                    Item::Comment(a, b) => assert(comment_ok(self.t(), a as int, b as int)),
                    Item::Comma(p) => assert(p <= self.t().len()),
                    Item::Colon(p) => assert(p <= self.t().len()),
                }
            }
            let pos = item.position();
            let line = if force_own_line {
                last_line + 1
            } else {
                self.line_index(prev_end, pos)
            };
            if line > last_line {
                self.newline_and_blank(out, last_content_end, pos);
                self.indent(out, level);
                at_line_start = true;
            }
            match item {
                Item::Comment(a, b) => {
                    if !at_line_start {
                        out.push(0x20);
                    }
                    self.emit_comment(out, a, b);
                    last_content_end = b;
                },
                Item::Comma(_) => out.push(0x2c),
                Item::Colon(_) => out.push(0x3a),
            }
            at_line_start = false;
            last_line = line;
            k = k + 1;
        }
        (last_line, last_content_end)
    }

    /// Emits the comment `[a, b)`. The carriage return of a line comment that ends
    /// before a CRLF is dropped; block comments go through
    /// [`Cx::emit_block_comment`].
    fn emit_comment(&self, out: &mut Out, a: usize, b: usize)
        requires
            self.wf(),
            old(out).wf(),
            comment_ok(self.t(), a as int, b as int),
        ensures
            final(out).wf(),
            final(out).s@ == self.doc().comment(old(out).s@, a as int, b as int),
    {
        let len = self.text.len();
        if self.text[a + 1] == 0x2f {
            let mut end = b;
            if self.text[b - 1] == 0x0d && b < len && self.text[b] == 0x0a {
                end = b - 1;
            }
            proof {
                lemma_ascii_edge_boundary(self.t(), a as int);
                lemma_ascii_edge_boundary(self.t(), end as int);
            }
            out.push_bytes(self.text, a, end);
        } else {
            self.emit_block_comment(out, a, b);
        }
    }

    /// Emits a block comment, normalizing CRLF to LF and shifting the leading spaces
    /// of continuation lines by the difference between the comment's input and output
    /// columns (never removing more spaces than a line has).
    fn emit_block_comment(&self, out: &mut Out, a: usize, b: usize)
        requires
            self.wf(),
            old(out).wf(),
            comment_ok(self.t(), a as int, b as int),
            self.t()[a + 1] == 0x2a,
        ensures
            final(out).wf(),
            final(out).s@ == self.doc().block_lines(
                old(out).s@,
                b as int,
                a as int,
                true,
                a - line_start(self.t(), a as int),
                column(old(out).s@) as int,
            ),
    {
        let input_col = self.input_column(a);
        let output_col = out.column();
        let ghost doc = self.doc();
        let ghost target = doc.block_lines(out.s@, b as int, a as int, true, input_col as int, output_col as int);
        let mut ls = a;
        let mut first = true;
        let mut done = false;
        while !done
            invariant
                self.wf(),
                out.wf(),
                doc == self.doc(),
                comment_ok(self.t(), a as int, b as int),
                self.t()[a + 1] == 0x2a,
                a <= ls <= b,
                ls == a || self.t()[ls - 1] == 0x0a,
                !done ==> doc.block_lines(out.s@, b as int, ls as int, first, input_col as int, output_col as int) == target,
                done ==> out.s@ == target,
            decreases b - ls, if done { 0int } else { 1int },
        {
            let mut le = ls;
            while le < b && self.text[le] != 0x0a
                invariant
                    ls <= le <= b <= self.t().len(),
                    next_lf(self.t(), ls as int, b as int) == next_lf(self.t(), le as int, b as int),
                decreases b - le,
            {
                le = le + 1;
            }
            let last = le >= b;
            let line_end = if !last && le > ls && self.text[le - 1] == 0x0d {
                le - 1
            } else {
                le
            };
            proof {
                lemma_ascii_edge_boundary(self.t(), ls as int);
                assert(ascii_edge(self.t(), line_end as int));
                lemma_ascii_edge_boundary(self.t(), line_end as int);
            }
            let ghost o = out.s@;
            if first {
                out.push_bytes(self.text, ls, line_end);
                first = false;
            } else {
                out.push(0x0a);
                let mut lead: usize = 0;
                while ls + lead < line_end && self.text[ls + lead] == 0x20
                    invariant
                        ls + lead <= line_end <= self.t().len(),
                        lead == 0 || self.t()[ls + lead - 1] == 0x20,
                        lead_spaces(self.t(), ls as int, line_end as int) == lead + lead_spaces(
                            self.t(),
                            (ls + lead) as int,
                            line_end as int,
                        ),
                    decreases line_end - ls - lead,
                {
                    lead = lead + 1;
                }
                let adjusted = if output_col >= input_col {
                    lead.saturating_add(output_col - input_col)
                } else {
                    lead.saturating_sub(input_col - output_col)
                };
                out.push_spaces(adjusted);
                proof {
                    lemma_ascii_edge_boundary(self.t(), (ls + lead) as int);
                }
                out.push_bytes(self.text, ls + lead, line_end);
                proof {
                    assert(out.s@ =~= o.push(0x0a) + spaces(adjusted as nat) + self.t().subrange(
                        ls + lead,
                        line_end as int,
                    ));
                }
            }
            if last {
                done = true;
            } else {
                ls = le + 1;
            }
        }
    }
}


/// The ends of `v`'s spans.
spec fn node_ends(v: Seq<Node>) -> Seq<int> {
    v.map_values(|n: Node| n.end as int)
}

/// The ends of the value spans of `v`'s members.
spec fn pair_ends(v: Seq<(Node, Node)>) -> Seq<int> {
    v.map_values(|p: (Node, Node)| p.1.end as int)
}

/// The kind and the number of children of the value that `node` stands for.
proof fn lemma_node_shape(ev: Seq<Entry>, node: Node, i: int)
    requires
        represents(ev, node, i),
    ensures
        0 <= i < ev.len(),
        node.start == ev[i].start,
        node.end == ev[i].end,
        match node.children {
            Children::Leaf => ev[i].kind != JsonValueKind::Array && ev[i].kind
                != JsonValueKind::Object,
            Children::Array(v) => ev[i].kind == JsonValueKind::Array && v@.len() == children(
                ev,
                i,
            ).len(),
            Children::Object(v) => ev[i].kind == JsonValueKind::Object && v@.len() == pairs(
                children(ev, i),
            ).len(),
        },
{
}

proof fn lemma_elem_ends(d: Doc, node: Node, elems: Vec<Node>, i: int)
    requires
        represents(d.ev, node, i),
        node.children == Children::Array(elems),
    ensures
        node_ends(elems@) == d.kid_ends(i),
{
    lemma_node_shape(d.ev, node, i);
    assert forall|k: int| 0 <= k < elems@.len() implies node_ends(elems@)[k] == d.kid_ends(i)[k] by {
        lemma_elem_represents(d.ev, node, elems, i, k);
    }
    assert(node_ends(elems@) =~= d.kid_ends(i));
}

proof fn lemma_member_ends(d: Doc, node: Node, members: Vec<(Node, Node)>, i: int)
    requires
        represents(d.ev, node, i),
        node.children == Children::Object(members),
    ensures
        pair_ends(members@) == d.member_ends(i),
{
    lemma_node_shape(d.ev, node, i);
    assert forall|k: int| 0 <= k < members@.len() implies pair_ends(members@)[k] == d.member_ends(
        i,
    )[k] by {
        lemma_member_represents(d.ev, node, members, i, k);
    }
    assert(pair_ends(members@) =~= d.member_ends(i));
}

/// The index of the first child whose span ends after `pos` (the children are in
/// text order).
fn first_elem_ending_after(elems: &Vec<Node>, pos: usize) -> (r: usize)
    ensures
        r <= elems@.len(),
        r == bsearch(node_ends(elems@), pos as int, 0, elems@.len() as int),
{
    let ghost ends = node_ends(elems@);
    let mut lo: usize = 0;
    let mut hi: usize = elems.len();
    while lo < hi
        invariant
            lo <= hi <= elems@.len(),
            ends == node_ends(elems@),
            bsearch(ends, pos as int, lo as int, hi as int) == bsearch(
                ends,
                pos as int,
                0,
                elems@.len() as int,
            ),
        decreases hi - lo,
    {
        let mid = lo + (hi - lo) / 2;
        if elems[mid].end <= pos {
            lo = mid + 1;
        } else {
            hi = mid;
        }
    }
    lo
}

/// The index of the first member whose value ends after `pos`.
fn first_member_ending_after(members: &Vec<(Node, Node)>, pos: usize) -> (r: usize)
    ensures
        r <= members@.len(),
        r == bsearch(pair_ends(members@), pos as int, 0, members@.len() as int),
{
    let ghost ends = pair_ends(members@);
    let mut lo: usize = 0;
    let mut hi: usize = members.len();
    while lo < hi
        invariant
            lo <= hi <= members@.len(),
            ends == pair_ends(members@),
            bsearch(ends, pos as int, lo as int, hi as int) == bsearch(
                ends,
                pos as int,
                0,
                members@.len() as int,
            ),
        decreases hi - lo,
    {
        let mid = lo + (hi - lo) / 2;
        if members[mid].1.end <= pos {
            lo = mid + 1;
        } else {
            hi = mid;
        }
    }
    lo
}

/// `items` without its commas.
fn without_commas(items: Vec<Item>) -> (r: Vec<Item>)
    ensures
        r@ == drop_commas(items@),
        forall|t: Seq<u8>| items_ok(t, items@) ==> items_ok(t, r@),
{
    let mut r: Vec<Item> = Vec::new();
    let mut k: usize = 0;
    let ghost src = items@;
    let ghost mut from: Seq<int> = Seq::empty();
    while k < items.len()
        invariant
            k <= items@.len(),
            src == items@,
            from.len() == r@.len(),
            r@ == drop_commas(src.subrange(0, k as int)),
            forall|i: int| 0 <= i < r@.len() ==> 0 <= #[trigger] from[i] < k && r@[i] == src[from[i]],
        decreases items@.len() - k,
    {
        let it = items[k];
        proof {
            assert(src.subrange(0, k + 1).drop_last() =~= src.subrange(0, k as int));
        }
        if !matches!(it, Item::Comma(_)) {
            r.push(it);
            proof {
                from = from.push(k as int);
            }
        }
        proof {
            assert(r@ =~= drop_commas(src.subrange(0, k + 1)));
        }
        k = k + 1;
    }
    proof {
        assert(src.subrange(0, k as int) =~= src);
        assert forall|t: Seq<u8>| items_ok(t, items@) implies items_ok(t, r@) by {
            assert forall|i: int| 0 <= i < r@.len() implies match #[trigger] r@[i] {
                Item::Comment(a, b) => comment_ok(t, a as int, b as int),
                Item::Comma(p) => p <= t.len(),
                Item::Colon(p) => p <= t.len(),
            } by {
                let j = from[i];
                assert(r@[i] == src[j]);
                let x = src[j];
            }
        }
    }
    r
}

/// Whether `items` holds a comma.
fn has_comma(items: &Vec<Item>) -> (b: bool)
    ensures
        b == (exists|i: int| 0 <= i < items@.len() && #[trigger] items@[i] is Comma),
{
    let mut k: usize = 0;
    while k < items.len()
        invariant
            k <= items@.len(),
            forall|i: int| 0 <= i < k ==> !(#[trigger] items@[i] is Comma),
        decreases items@.len() - k,
    {
        if matches!(items[k], Item::Comma(_)) {
            return true;
        }
        k = k + 1;
    }
    false
}

impl<'a> Cx<'a> {
    /// Returns `true` when the container has a comment in one of its own gaps (not
    /// nested inside a child value).
    fn has_comment_in_gaps(&self, node: &Node, Ghost(i): Ghost<int>) -> (b: bool)
        requires
            self.wf(),
            represents(self.ev@, *node, i),
        ensures
            b == self.doc().has_gap_comment(i),
    {
        let ghost doc = self.doc();
        let ghost cm = self.cm();
        proof {
            lemma_node_shape(self.ev@, *node, i);
        }
        let n = self.comments.len();
        let mut ci = self.comments_before(node.start, false);
        let ghost target = doc.has_gap_comment(i);
        while ci < n
            invariant
                self.wf(),
                doc == self.doc(),
                cm == self.cm(),
                ci <= n,
                n == cm.len(),
                represents(self.ev@, *node, i),
                0 <= i < self.ev@.len(),
                node.start == self.ev@[i].start,
                node.end == self.ev@[i].end,
                doc.gap_comment_from(i, ci as int) == target,
                target == doc.has_gap_comment(i),
            decreases n - ci,
        {
            let c = &self.comments[ci];
            proof {
                assert(cm[ci as int] == (c.start as int, c.end as int));
                lemma_node_shape(self.ev@, *node, i);
            }
            if c.start >= node.end {
                return false;
            }
            let in_child = match &node.children {
                Children::Array(elems) => {
                    let first = first_elem_ending_after(elems, c.start);
                    proof {
                        lemma_elem_ends(doc, *node, *elems, i);
                        if first < elems@.len() {
                            lemma_elem_represents(self.ev@, *node, *elems, i, first as int);
                        }
                    }
                    first < elems.len() && elems[first].start <= c.start && c.start
                        < elems[first].end
                },
                Children::Object(members) => {
                    let first = first_member_ending_after(members, c.start);
                    proof {
                        lemma_member_ends(doc, *node, *members, i);
                        if first < members@.len() {
                            lemma_member_represents(self.ev@, *node, *members, i, first as int);
                        }
                    }
                    first < members.len() && ((members[first].0.start <= c.start && c.start
                        < members[first].0.end) || (members[first].1.start <= c.start && c.start
                        < members[first].1.end))
                },
                Children::Leaf => false,
            };
            proof {
                assert(in_child == doc.in_child(i, c.start as int));
            }
            if !in_child {
                return true;
            }
            ci = ci + 1;
        }
        false
    }

    /// Returns `true` when `node` (a container) is to be laid out on multiple lines
    /// under the line-break policy.
    fn initial_multiline(&self, node: &Node, Ghost(i): Ghost<int>) -> (b: bool)
        requires
            self.wf(),
            node.end <= self.t().len(),
            represents(self.ev@, *node, i),
        ensures
            b == self.doc().multiline(i),
    {
        proof {
            lemma_node_shape(self.ev@, *node, i);
        }
        match self.settings.line_breaks {
            JsoncLineBreaks::Preserve => self.has_physical_newline(node.start, node.end),
            JsoncLineBreaks::Always => {
                let has_children = match &node.children {
                    Children::Array(elems) => elems.len() > 0,
                    Children::Object(members) => members.len() > 0,
                    Children::Leaf => false,
                };
                has_children || self.has_comment_in_gaps(node, Ghost(i))
            },
        }
    }

    /// Builds the tail-gap item list according to the trailing-comma policy.
    /// `multiline` is the container's final line-break decision.
    fn apply_trailing_comma(&self, node: &Node, Ghost(i): Ghost<int>, multiline: bool, tail: Vec<Item>) -> (r: Vec<Item>)
        requires
            node_wf(self.t(), *node),
            represents(self.ev@, *node, i),
            items_ok(self.t(), tail@),
        ensures
            items_ok(self.t(), r@),
            r@ == self.doc().trailing(i, multiline, tail@),
    {
        proof {
            lemma_node_shape(self.ev@, *node, i);
        }
        let has_content = match &node.children {
            Children::Array(elems) => elems.len() > 0,
            Children::Object(members) => members.len() > 0,
            Children::Leaf => false,
        };
        let comma = has_comma(&tail);
        match self.settings.trailing_commas {
            JsoncTrailingCommas::Preserve => tail,
            JsoncTrailingCommas::Never => without_commas(tail),
            JsoncTrailingCommas::AlwaysMultiline => {
                if multiline && has_content && comma {
                    tail
                } else if multiline && has_content {
                    let pos = match &node.children {
                        Children::Array(elems) => {
                            proof {
                                lemma_elem_wf(self.t(), *node, *elems, elems@.len() - 1);
                                lemma_elem_represents(self.ev@, *node, *elems, i, elems@.len() - 1);
                            }
                            elems[elems.len() - 1].end
                        },
                        Children::Object(members) => {
                            proof {
                                lemma_member_wf(self.t(), *node, *members, members@.len() - 1);
                                lemma_member_represents(self.ev@, *node, *members, i, members@.len() - 1);
                            }
                            members[members.len() - 1].1.end
                        },
                        Children::Leaf => node.end,
                    };
                    proof {
                        assert(pos == self.doc().last_end(i));
                    }
                    let mut out: Vec<Item> = Vec::new();
                    out.push(Item::Comma(pos));
                    let mut k: usize = 0;
                    while k < tail.len()
                        invariant
                            k <= tail@.len(),
                            pos <= self.t().len(),
                            items_ok(self.t(), tail@),
                            items_ok(self.t(), out@),
                            out@ == seq![Item::Comma(pos)] + tail@.subrange(0, k as int),
                        decreases tail@.len() - k,
                    {
                        let it = tail[k];
                        proof {
                            let x = tail@[k as int];
                        }
                        out.push(it);
                        proof {
                            assert(out@ =~= seq![Item::Comma(pos)] + tail@.subrange(0, k + 1));
                            assert forall|q: int| 0 <= q < out@.len() implies match #[trigger] out@[q] {
                                Item::Comment(a, b) => comment_ok(self.t(), a as int, b as int),
                                Item::Comma(p) => p <= self.t().len(),
                                Item::Colon(p) => p <= self.t().len(),
                            } by {
                                if q < out@.len() - 1 {
                                    let x = out@[q];
                                } else {
                                    let x = tail@[k as int];
                                }
                            }
                        }
                        k = k + 1;
                    }
                    proof {
                        assert(tail@.subrange(0, k as int) =~= tail@);
                    }
                    out
                } else {
                    without_commas(tail)
                }
            },
        }
    }
}


impl<'a> Cx<'a> {
    /// Emits gap items inside a single-line container: a comment after a space, a
    /// comma or a colon as it is.
    fn emit_inline_items(&self, out: &mut Out, items: &Vec<Item>)
        requires
            self.wf(),
            old(out).wf(),
            items_ok(self.t(), items@),
        ensures
            final(out).wf(),
            final(out).s@ == self.doc().inline_from(old(out).s@, items@, 0),
    {
        let ghost doc = self.doc();
        let ghost target = doc.inline_from(out.s@, items@, 0);
        let mut k: usize = 0;
        while k < items.len()
            invariant
                self.wf(),
                out.wf(),
                doc == self.doc(),
                items_ok(self.t(), items@),
                k <= items@.len(),
                doc.inline_from(out.s@, items@, k as int) == target,
            decreases items@.len() - k,
        {
            proof {
                let x = items@[k as int];
            }
            match items[k] {
                Item::Comment(a, b) => {
                    out.push(0x20);
                    self.emit_comment(out, a, b);
                },
                Item::Comma(_) => out.push(0x2c),
                Item::Colon(_) => out.push(0x3a),
            }
            k = k + 1;
        }
    }

    /// Emits the comments among `items`, each followed by a space when
    /// `space_after`, else preceded by one.
    fn emit_gap_comments(&self, out: &mut Out, items: &Vec<Item>, space_after: bool)
        requires
            self.wf(),
            old(out).wf(),
            items_ok(self.t(), items@),
        ensures
            final(out).wf(),
            final(out).s@ == self.doc().gap_comments_from(old(out).s@, items@, 0, space_after),
    {
        let ghost doc = self.doc();
        let ghost target = doc.gap_comments_from(out.s@, items@, 0, space_after);
        let mut k: usize = 0;
        while k < items.len()
            invariant
                self.wf(),
                out.wf(),
                doc == self.doc(),
                items_ok(self.t(), items@),
                k <= items@.len(),
                doc.gap_comments_from(out.s@, items@, k as int, space_after) == target,
            decreases items@.len() - k,
        {
            proof {
                let x = items@[k as int];
            }
            if let Item::Comment(a, b) = items[k] {
                if space_after {
                    self.emit_comment(out, a, b);
                    out.push(0x20);
                } else {
                    out.push(0x20);
                    self.emit_comment(out, a, b);
                }
            }
            k = k + 1;
        }
    }

    fn emit_value(&self, out: &mut Out, level: usize, node: &Node, Ghost(i): Ghost<int>)
        requires
            self.wf(),
            old(out).wf(),
            node_wf(self.t(), *node),
            represents(self.ev@, *node, i),
        ensures
            final(out).wf(),
            final(out).s@ == self.doc().value(old(out).s@, level as int, i),
        decreases *node, 2nat,
    {
        proof {
            lemma_node_shape(self.ev@, *node, i);
        }
        match &node.children {
            Children::Leaf => {
                proof {
                    lemma_ascii_edge_boundary(self.t(), node.start as int);
                    lemma_ascii_edge_boundary(self.t(), node.end as int);
                }
                out.push_bytes(self.text, node.start, node.end);
            },
            Children::Array(elems) => {
                if self.initial_multiline(node, Ghost(i)) {
                    self.emit_multiline_array(out, level, node, elems, Ghost(i));
                } else {
                    self.emit_single_line_array(out, level, node, elems, Ghost(i));
                }
            },
            Children::Object(members) => {
                if self.initial_multiline(node, Ghost(i)) {
                    self.emit_multiline_object(out, level, node, members, Ghost(i));
                } else {
                    self.emit_single_line_object(out, level, node, members, Ghost(i));
                }
            },
        }
    }

    fn emit_multiline_array(
        &self,
        out: &mut Out,
        level: usize,
        node: &Node,
        elems: &Vec<Node>,
        Ghost(i): Ghost<int>,
    )
        requires
            self.wf(),
            old(out).wf(),
            node_wf(self.t(), *node),
            node.children == Children::Array(*elems),
            represents(self.ev@, *node, i),
        ensures
            final(out).wf(),
            final(out).s@ == self.doc().ml_array(old(out).s@, level as int, i),
        decreases *node, 1nat,
    {
        let ghost doc = self.doc();
        let ghost ev = self.ev@;
        proof {
            lemma_node_shape(ev, *node, i);
        }
        let open = node.start;
        let close = node.end - 1;
        let inner = level.saturating_add(1);
        out.push(0x5b);
        let ghost o1 = out.s@;
        if elems.len() == 0 {
            let head = self.scan_gap(open + 1, close);
            let (_, last_content_end) = self.emit_gap_items(out, inner, open + 1, &head, false, true);
            self.newline_and_blank(out, last_content_end, close);
            self.indent(out, level);
            out.push(0x5d);
            return ;
        }
        let mut k: usize = 0;
        while k < elems.len()
            invariant
                self.wf(),
                out.wf(),
                doc == self.doc(),
                ev == self.ev@,
                node_wf(self.t(), *node),
                node.children == Children::Array(*elems),
                represents(ev, *node, i),
                0 <= i < ev.len(),
                open == ev[i].start,
                elems@.len() == doc.kids(i).len(),
                k <= elems@.len(),
                open < node.end <= self.t().len(),
                inner == sat_add(level as int, 1),
                doc.ml_elems(out.s@, inner as int, i, k as int) == doc.ml_elems(o1, inner as int, i, 0),
            decreases elems@.len() - k,
        {
            let e = &elems[k];
            let ghost c = doc.kids(i)[k as int];
            let ghost o0 = out.s@;
            proof {
                lemma_elem_wf(self.t(), *node, *elems, k as int);
                lemma_elem_decreases(*node, *elems, k as int);
                lemma_elem_represents(ev, *node, *elems, i, k as int);
                lemma_kid_bounds(self.t(), ev, i, k as int);
                if k > 0 {
                    lemma_elem_wf(self.t(), *node, *elems, k - 1);
                    lemma_elem_represents(ev, *node, *elems, i, k - 1);
                }
            }
            let prev_end = if k == 0 {
                open + 1
            } else {
                elems[k - 1].end
            };
            let gap = self.scan_gap(prev_end, e.start);
            let (_, last_content_end) = self.emit_gap_items(out, inner, prev_end, &gap, false, k == 0);
            self.newline_and_blank(out, last_content_end, e.start);
            self.indent(out, inner);
            self.emit_value(out, inner, e, Ghost(c));
            proof {
                assert(doc.ml_elems(o0, inner as int, i, k as int) == doc.ml_elems(
                    out.s@,
                    inner as int,
                    i,
                    k + 1,
                ));
            }
            k = k + 1;
        }
        proof {
            lemma_elem_wf(self.t(), *node, *elems, elems@.len() - 1);
            lemma_elem_represents(ev, *node, *elems, i, elems@.len() - 1);
        }
        let last_end = elems[elems.len() - 1].end;
        let gap = self.scan_gap(last_end, close);
        let tail = self.apply_trailing_comma(node, Ghost(i), true, gap);
        let (_, last_content_end) = self.emit_gap_items(out, inner, last_end, &tail, false, false);
        self.newline_and_blank(out, last_content_end, close);
        self.indent(out, level);
        out.push(0x5d);
    }

    fn emit_multiline_object(
        &self,
        out: &mut Out,
        level: usize,
        node: &Node,
        members: &Vec<(Node, Node)>,
        Ghost(i): Ghost<int>,
    )
        requires
            self.wf(),
            old(out).wf(),
            node_wf(self.t(), *node),
            node.children == Children::Object(*members),
            represents(self.ev@, *node, i),
        ensures
            final(out).wf(),
            final(out).s@ == self.doc().ml_object(old(out).s@, level as int, i),
        decreases *node, 1nat,
    {
        let ghost doc = self.doc();
        let ghost ev = self.ev@;
        proof {
            lemma_node_shape(ev, *node, i);
        }
        let open = node.start;
        let close = node.end - 1;
        let inner = level.saturating_add(1);
        out.push(0x7b);
        let ghost o1 = out.s@;
        if members.len() == 0 {
            let head = self.scan_gap(open + 1, close);
            let (_, last_content_end) = self.emit_gap_items(out, inner, open + 1, &head, false, true);
            self.newline_and_blank(out, last_content_end, close);
            self.indent(out, level);
            out.push(0x7d);
            return ;
        }
        let mut k: usize = 0;
        while k < members.len()
            invariant
                self.wf(),
                out.wf(),
                doc == self.doc(),
                ev == self.ev@,
                node_wf(self.t(), *node),
                node.children == Children::Object(*members),
                represents(ev, *node, i),
                0 <= i < ev.len(),
                open == ev[i].start,
                members@.len() == doc.members(i).len(),
                k <= members@.len(),
                open < node.end <= self.t().len(),
                inner == sat_add(level as int, 1),
                doc.ml_members(out.s@, inner as int, i, k as int) == doc.ml_members(o1, inner as int, i, 0),
            decreases members@.len() - k,
        {
            let key = &members[k].0;
            let v = &members[k].1;
            let ghost m = doc.members(i)[k as int];
            let ghost o0 = out.s@;
            proof {
                lemma_member_wf(self.t(), *node, *members, k as int);
                lemma_member_decreases(*node, *members, k as int);
                lemma_member_represents(ev, *node, *members, i, k as int);
                lemma_kid_bounds(self.t(), ev, i, 2 * k + 1);
                if k > 0 {
                    lemma_member_wf(self.t(), *node, *members, k - 1);
                    lemma_member_represents(ev, *node, *members, i, k - 1);
                }
                lemma_ascii_edge_boundary(self.t(), key.start as int);
                lemma_ascii_edge_boundary(self.t(), key.end as int);
            }
            let prev_end = if k == 0 {
                open + 1
            } else {
                members[k - 1].1.end
            };
            let gap = self.scan_gap(prev_end, key.start);
            let (_, last_content_end) = self.emit_gap_items(out, inner, prev_end, &gap, false, k == 0);
            self.newline_and_blank(out, last_content_end, key.start);
            self.indent(out, inner);
            out.push_bytes(self.text, key.start, key.end);
            let key_colon = self.scan_gap(key.end, v.start);
            let (last_line, last_content_end) = self.emit_gap_items(
                out,
                inner,
                key.end,
                &key_colon,
                false,
                false,
            );
            let vline = self.line_index(key.end, v.start);
            if vline > last_line {
                self.newline_and_blank(out, last_content_end, v.start);
                self.indent(out, inner);
            } else if out.column() != 0 {
                out.push(0x20);
            }
            self.emit_value(out, inner, v, Ghost(m.1));
            proof {
                assert(doc.ml_members(o0, inner as int, i, k as int) == doc.ml_members(
                    out.s@,
                    inner as int,
                    i,
                    k + 1,
                ));
            }
            k = k + 1;
        }
        proof {
            lemma_member_wf(self.t(), *node, *members, members@.len() - 1);
            lemma_member_represents(ev, *node, *members, i, members@.len() - 1);
        }
        let last_end = members[members.len() - 1].1.end;
        let gap = self.scan_gap(last_end, close);
        let tail = self.apply_trailing_comma(node, Ghost(i), true, gap);
        let (_, last_content_end) = self.emit_gap_items(out, inner, last_end, &tail, false, false);
        self.newline_and_blank(out, last_content_end, close);
        self.indent(out, level);
        out.push(0x7d);
    }

    fn emit_single_line_array(
        &self,
        out: &mut Out,
        level: usize,
        node: &Node,
        elems: &Vec<Node>,
        Ghost(i): Ghost<int>,
    )
        requires
            self.wf(),
            old(out).wf(),
            node_wf(self.t(), *node),
            node.children == Children::Array(*elems),
            represents(self.ev@, *node, i),
        ensures
            final(out).wf(),
            final(out).s@ == self.doc().sl_array(old(out).s@, level as int, i),
        decreases *node, 1nat,
    {
        let ghost doc = self.doc();
        let ghost ev = self.ev@;
        proof {
            lemma_node_shape(ev, *node, i);
        }
        let open = node.start;
        let close = node.end - 1;
        out.push(0x5b);
        if elems.len() == 0 {
            let head = self.scan_gap(open + 1, close);
            if head.len() == 0 {
                out.push(0x5d);
                return ;
            }
            out.push(0x20);
            self.emit_gap_comments(out, &head, true);
            out.push(0x5d);
            return ;
        }
        proof {
            lemma_elem_wf(self.t(), *node, *elems, 0);
            lemma_elem_represents(ev, *node, *elems, i, 0);
        }
        let head = self.scan_gap(open + 1, elems[0].start);
        self.emit_gap_comments(out, &head, false);
        let ghost o2 = out.s@;
        let ghost has_head = head@.len() > 0;
        let mut k: usize = 0;
        while k < elems.len()
            invariant
                self.wf(),
                out.wf(),
                doc == self.doc(),
                ev == self.ev@,
                node_wf(self.t(), *node),
                node.children == Children::Array(*elems),
                represents(ev, *node, i),
                0 <= i < ev.len(),
                elems@.len() == doc.kids(i).len(),
                k <= elems@.len(),
                open < node.end <= self.t().len(),
                has_head == (head@.len() > 0),
                doc.sl_elems(out.s@, level as int, i, k as int, has_head) == doc.sl_elems(
                    o2,
                    level as int,
                    i,
                    0,
                    has_head,
                ),
            decreases elems@.len() - k,
        {
            let e = &elems[k];
            let ghost c = doc.kids(i)[k as int];
            let ghost o0 = out.s@;
            proof {
                lemma_elem_wf(self.t(), *node, *elems, k as int);
                lemma_elem_decreases(*node, *elems, k as int);
                lemma_elem_represents(ev, *node, *elems, i, k as int);
                lemma_kid_bounds(self.t(), ev, i, k as int);
                if k > 0 {
                    lemma_elem_wf(self.t(), *node, *elems, k - 1);
                    lemma_elem_represents(ev, *node, *elems, i, k - 1);
                }
            }
            if k > 0 {
                let between = self.scan_gap(elems[k - 1].end, e.start);
                self.emit_inline_items(out, &between);
                out.push(0x20);
            } else if head.len() > 0 {
                out.push(0x20);
            }
            self.emit_value(out, level, e, Ghost(c));
            proof {
                assert(doc.sl_elems(o0, level as int, i, k as int, has_head) == doc.sl_elems(
                    out.s@,
                    level as int,
                    i,
                    k + 1,
                    has_head,
                ));
            }
            k = k + 1;
        }
        proof {
            lemma_elem_wf(self.t(), *node, *elems, elems@.len() - 1);
            lemma_elem_represents(ev, *node, *elems, i, elems@.len() - 1);
        }
        let last_end = elems[elems.len() - 1].end;
        let gap = self.scan_gap(last_end, close);
        let tail = self.apply_trailing_comma(node, Ghost(i), false, gap);
        self.emit_inline_items(out, &tail);
        out.push(0x5d);
    }

    fn emit_single_line_object(
        &self,
        out: &mut Out,
        level: usize,
        node: &Node,
        members: &Vec<(Node, Node)>,
        Ghost(i): Ghost<int>,
    )
        requires
            self.wf(),
            old(out).wf(),
            node_wf(self.t(), *node),
            node.children == Children::Object(*members),
            represents(self.ev@, *node, i),
        ensures
            final(out).wf(),
            final(out).s@ == self.doc().sl_object(old(out).s@, level as int, i),
        decreases *node, 1nat,
    {
        let ghost doc = self.doc();
        let ghost ev = self.ev@;
        proof {
            lemma_node_shape(ev, *node, i);
        }
        let open = node.start;
        let close = node.end - 1;
        out.push(0x7b);
        if members.len() == 0 {
            let head = self.scan_gap(open + 1, close);
            if head.len() == 0 {
                out.push(0x7d);
                return ;
            }
            out.push(0x20);
            self.emit_gap_comments(out, &head, true);
            out.push(0x7d);
            return ;
        }
        proof {
            lemma_member_wf(self.t(), *node, *members, 0);
            lemma_member_represents(ev, *node, *members, i, 0);
        }
        let head = self.scan_gap(open + 1, members[0].0.start);
        self.emit_gap_comments(out, &head, false);
        let ghost o2 = out.s@;
        let ghost has_head = head@.len() > 0;
        let mut k: usize = 0;
        while k < members.len()
            invariant
                self.wf(),
                out.wf(),
                doc == self.doc(),
                ev == self.ev@,
                node_wf(self.t(), *node),
                node.children == Children::Object(*members),
                represents(ev, *node, i),
                0 <= i < ev.len(),
                members@.len() == doc.members(i).len(),
                k <= members@.len(),
                open < node.end <= self.t().len(),
                has_head == (head@.len() > 0),
                doc.sl_members(out.s@, level as int, i, k as int, has_head) == doc.sl_members(
                    o2,
                    level as int,
                    i,
                    0,
                    has_head,
                ),
            decreases members@.len() - k,
        {
            let key = &members[k].0;
            let v = &members[k].1;
            let ghost m = doc.members(i)[k as int];
            let ghost o0 = out.s@;
            proof {
                lemma_member_wf(self.t(), *node, *members, k as int);
                lemma_member_decreases(*node, *members, k as int);
                lemma_member_represents(ev, *node, *members, i, k as int);
                lemma_kid_bounds(self.t(), ev, i, 2 * k + 1);
                if k > 0 {
                    lemma_member_wf(self.t(), *node, *members, k - 1);
                    lemma_member_represents(ev, *node, *members, i, k - 1);
                }
                lemma_ascii_edge_boundary(self.t(), key.start as int);
                lemma_ascii_edge_boundary(self.t(), key.end as int);
            }
            if k > 0 {
                let between = self.scan_gap(members[k - 1].1.end, key.start);
                self.emit_inline_items(out, &between);
                out.push(0x20);
            } else if head.len() > 0 {
                out.push(0x20);
            }
            out.push_bytes(self.text, key.start, key.end);
            let key_colon = self.scan_gap(key.end, v.start);
            self.emit_inline_items(out, &key_colon);
            out.push(0x20);
            self.emit_value(out, level, v, Ghost(m.1));
            proof {
                assert(doc.sl_members(o0, level as int, i, k as int, has_head) == doc.sl_members(
                    out.s@,
                    level as int,
                    i,
                    k + 1,
                    has_head,
                ));
            }
            k = k + 1;
        }
        proof {
            lemma_member_wf(self.t(), *node, *members, members@.len() - 1);
            lemma_member_represents(ev, *node, *members, i, members@.len() - 1);
        }
        let last_end = members[members.len() - 1].1.end;
        let gap = self.scan_gap(last_end, close);
        let tail = self.apply_trailing_comma(node, Ghost(i), false, gap);
        self.emit_inline_items(out, &tail);
        out.push(0x7d);
    }
}


/// The children of a value lie after it in the index.
proof fn lemma_kid_bounds(t: Seq<u8>, ev: Seq<Entry>, i: int, k: int)
    requires
        index_wf(t, ev),
        0 <= i < ev.len(),
        0 <= k < children(ev, i).len(),
    ensures
        i < children(ev, i)[k] < ev.len(),
{
    assert(entry_in(t, ev, i, ev.len() as int));
    lemma_chain_bounds(ev, i + 1, ev[i].end_index);
}


impl JsoncFormatter {
    /// Parses `text` as JSONC and returns it reformatted according to `self`.
    ///
    /// The input is validated with [`RawJson::parse_jsonc`]; invalid JSONC is
    /// returned as that [`JsonParseError`]. The returned string never ends with a
    /// line break and uses LF as its only line-break character outside comments.
    pub fn format(&self, text: &str) -> (r: Result<String, JsonParseError>)
        ensures
            match parse_text(text.spec_bytes(), true) {
                Ok((ev, cm)) => (r matches Ok(s) && s@ == decode_utf8(
                    Doc { t: text.spec_bytes(), cm, ev, f: *self }.layout(),
                )),
                Err(e) => (r matches Err(x) && error_matches(x, e)),
            },
    {
        let (json, comments) = match RawJson::parse_jsonc(text) {
            Ok(parsed) => parsed,
            Err(e) => return Err(e),
        };
        let bytes = text.as_bytes();
        let values = json.index();
        proof {
            lemma_str_valid(text);
            assert(bytes@ == json.bytes());
        }
        let tree = build_node(Ghost(bytes@), values, 0);
        let cx = Cx { text: bytes, comments: &comments, settings: *self, ev: Ghost(json.entries()) };
        let ghost doc = cx.doc();
        let ghost cm = cx.cm();
        proof {
            lemma_node_shape(cx.ev@, tree, 0);
        }
        let mut out = Out::new();
        let root_start = tree.start;
        let root_end = tree.end;
        let first_after_root = cx.comments_before(root_start, false);
        let mut leading: Vec<Item> = Vec::new();
        let mut k: usize = 0;
        while k < first_after_root
            invariant
                cx.wf(),
                cm == cx.cm(),
                k <= first_after_root <= comments@.len(),
                cx.comments == &comments,
                items_ok(cx.t(), leading@),
                leading@ == comments_from(cm, 0, k as int, 0),
            decreases first_after_root - k,
        {
            let c = &comments[k];
            proof {
                assert(cm[k as int] == (c.start as int, c.end as int));
                assert(comment_ok(cx.t(), cm[k as int].0, cm[k as int].1));
            }
            leading.push(Item::Comment(c.start, c.end));
            proof {
                assert(leading@ =~= comments_from(cm, 0, k + 1, 0));
                assert forall|i: int| 0 <= i < leading@.len() implies match #[trigger] leading@[i] {
                    Item::Comment(a, b) => comment_ok(cx.t(), a as int, b as int),
                    Item::Comma(p) => p <= cx.t().len(),
                    Item::Colon(p) => p <= cx.t().len(),
                } by {
                    if i < leading@.len() - 1 {
                        let x = leading@[i];
                    }
                }
            }
            k = k + 1;
        }
        let (last_line, last_content_end) = cx.emit_gap_items(&mut out, 0, 0, &leading, true, false);
        let root_line = cx.line_index(0, root_start);
        if root_line > last_line {
            out.push(0x0a);
            if cx.has_blank_line(last_content_end, root_start) {
                out.push(0x0a);
            }
        } else if out.column() != 0 {
            out.push(0x20);
        }
        cx.emit_value(&mut out, 0, &tree, Ghost(0));
        let mut trailing: Vec<Item> = Vec::new();
        let mut k: usize = first_after_root;
        while k < comments.len()
            invariant
                cx.wf(),
                cm == cx.cm(),
                first_after_root <= k <= comments@.len(),
                cx.comments == &comments,
                items_ok(cx.t(), trailing@),
                trailing@ == comments_from(cm, first_after_root as int, k as int, root_end as int),
            decreases comments@.len() - k,
        {
            let c = &comments[k];
            proof {
                assert(cm[k as int] == (c.start as int, c.end as int));
                assert(comment_ok(cx.t(), cm[k as int].0, cm[k as int].1));
            }
            if c.start >= root_end {
                trailing.push(Item::Comment(c.start, c.end));
                proof {
                    assert forall|i: int| 0 <= i < trailing@.len() implies match #[trigger] trailing@[i] {
                        Item::Comment(a, b) => comment_ok(cx.t(), a as int, b as int),
                        Item::Comma(p) => p <= cx.t().len(),
                        Item::Colon(p) => p <= cx.t().len(),
                    } by {
                        if i < trailing@.len() - 1 {
                            let x = trailing@[i];
                        }
                    }
                }
            }
            proof {
                assert(trailing@ =~= comments_from(cm, first_after_root as int, k + 1, root_end as int));
            }
            k = k + 1;
        }
        cx.emit_gap_items(&mut out, 0, root_end, &trailing, false, false);
        proof {
            assert(out.s@ == doc.layout());
        }
        match string_from_utf8(out.s) {
            Some(s) => Ok(s),
            None => Ok(String::new()),
        }
    }
}

} // verus!
