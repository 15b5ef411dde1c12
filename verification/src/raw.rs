//! A parsed text kept in its original form, with an index of every value in it.
use core::ops::Range;
use vstd::prelude::*;
use vstd::string::{StringExecFns, StringSliceAdditionalSpecFns};
use crate::comments::{comments_ok, lemma_parse_text_comments};
use crate::error::{JsonParseError, error_matches};
use crate::grammar::{Entry, parse_text};
use crate::kind::{JsonValueKind, kind_name};
use crate::parse::{JsonParser, Jsonc, Plain, comments_view, entries_view, entries_wf};
use crate::slices::{ascii_edge, lemma_ascii_edge_boundary, lemma_str_valid, str_slice};
use crate::strings::{char_from_u32, string_push, string_push_str};
use crate::grammar::{hex4, is_high_surrogate, is_low_surrogate};
use crate::parse::hex4_at;
use crate::structure::{entry_in, index_wf, integer_lexeme, lemma_parse_text_wf};
use crate::grammar::is_digit;
use crate::values::JsonValueIndexEntry;
use crate::format::{
    DisplayJson, JsonArrayFormatter, JsonFormatter, JsonObjectFormatter, element_prefix,
    indentation, member_head, next_level, quoted,
};
use vstd::utf8::{decode_utf8, encode_utf8, encode_utf8_decode_utf8};
use std::borrow::Cow;

verus! {

/// The indices of the values that follow one another from `j` up to `end`, each one
/// just after the block of the one before.
pub open spec fn chain(ev: Seq<Entry>, j: int, end: int) -> Seq<int>
    decreases end - j,
{
    if 0 <= j < end && j < ev.len() && j < ev[j].end_index <= end {
        seq![j] + chain(ev, ev[j].end_index, end)
    } else {
        seq![]
    }
}

/// The indices of the children of value `i` (elements, or names and values in turn).
pub open spec fn children(ev: Seq<Entry>, i: int) -> Seq<int> {
    chain(ev, i + 1, ev[i].end_index)
}

/// Byte `pos` lies in the text of entry `e`.
pub open spec fn holds(e: Entry, pos: int) -> bool {
    e.start <= pos < e.end
}

/// The first value of the chain from `j` up to `end` whose text holds `pos`.
pub open spec fn chain_find(ev: Seq<Entry>, j: int, end: int, pos: int) -> Option<int>
    decreases end - j,
{
    if 0 <= j < end && j < ev.len() && j < ev[j].end_index <= end {
        if holds(ev[j], pos) {
            Some(j)
        } else {
            chain_find(ev, ev[j].end_index, end, pos)
        }
    } else {
        None
    }
}

/// Starting at value `i`, the value reached by stepping down into the first child
/// whose text holds `pos`, while there is one.
pub open spec fn descend(ev: Seq<Entry>, i: int, pos: int) -> int
    decreases ev.len() - i,
{
    if 0 <= i < ev.len() {
        match chain_find(ev, i + 1, ev[i].end_index, pos) {
            Some(c) => if i < c < ev.len() {
                descend(ev, c, pos)
            } else {
                i
            },
            None => i,
        }
    } else {
        i
    }
}

/// The most specific value whose text holds `pos`, found from the top-level value.
pub open spec fn value_at(ev: Seq<Entry>, pos: int) -> Option<int> {
    if ev.len() > 0 && holds(ev[0], pos) {
        Some(descend(ev, 0, pos))
    } else {
        None
    }
}

proof fn lemma_chain_find(ev: Seq<Entry>, j: int, end: int, pos: int)
    ensures
        chain_find(ev, j, end, pos) matches Some(c) ==> j <= c < end && c < ev.len() && holds(
            ev[c],
            pos,
        ),
    decreases end - j,
{
    if 0 <= j < end && j < ev.len() && j < ev[j].end_index <= end {
        if !holds(ev[j], pos) {
            lemma_chain_find(ev, ev[j].end_index, end, pos);
        }
    }
}

/// The reason given when a value is not of the kind that was expected.
pub open spec fn expected_message(expected: Seq<char>, found: JsonValueKind) -> Seq<char> {
    "expected "@ + expected + ", but found "@ + kind_name(found)
}

/// `e` is the error of a value recorded as `entry` that is not of the kind expected
/// (`expected` names it).
pub open spec fn kind_error(e: JsonParseError, entry: Entry, expected: Seq<char>) -> bool {
    match e {
        JsonParseError::InvalidValue { kind, position, error } => kind == entry.kind && position
            == entry.start as usize && error@ == expected_message(expected, entry.kind),
        _ => false,
    }
}

/// The pairs of consecutive indices of `c`: first and second, third and fourth, and
/// so on (a last unpaired index is left out).
pub open spec fn pairs(c: Seq<int>) -> Seq<(int, int)> {
    Seq::new(c.len() / 2, |m: int| (c[2 * m], c[2 * m + 1]))
}

/// The index of the first backslash at or after `i` in `b`, or the length of `b`.
pub open spec fn next_backslash(b: Seq<u8>, i: int) -> int
    decreases b.len() - i,
{
    if i < 0 || i >= b.len() {
        b.len() as int
    } else if b[i] == 0x5c {
        i
    } else {
        next_backslash(b, i + 1)
    }
}

pub proof fn lemma_next_backslash(b: Seq<u8>, i: int)
    requires
        0 <= i < b.len(),
        b[i] != 0x5c,
    ensures
        i < next_backslash(b, i) <= b.len(),
        next_backslash(b, i) < b.len() ==> b[next_backslash(b, i)] == 0x5c,
    decreases b.len() - i,
{
    reveal_with_fuel(next_backslash, 2);
    if i + 1 < b.len() && b[i + 1] != 0x5c {
        lemma_next_backslash(b, i + 1);
    }
}

/// The character that the escape sequence whose backslash is at `p` stands for, and
/// the index just after the sequence; `None` when no escape sequence starts there.
/// A `\u` escape of a high surrogate must be followed by one of a low surrogate;
/// the pair stands for one character.
pub open spec fn escape_at(b: Seq<u8>, p: int) -> Option<(char, int)> {
    if p < 0 || p + 1 >= b.len() {
        None
    } else {
        let x = b[p + 1];
        if x == 0x22 {
            Some(('"', p + 2))
        } else if x == 0x5c {
            Some(('\\', p + 2))
        } else if x == 0x2f {
            Some(('/', p + 2))
        } else if x == 0x6e {
            Some(('\n', p + 2))
        } else if x == 0x74 {
            Some(('\t', p + 2))
        } else if x == 0x72 {
            Some(('\r', p + 2))
        } else if x == 0x62 {
            Some(('\u{8}', p + 2))
        } else if x == 0x66 {
            Some(('\u{c}', p + 2))
        } else if x == 0x75 {
            match hex4(b, p + 2) {
                Some(code) => if is_high_surrogate(code) {
                    if p + 12 <= b.len() && b[p + 6] == 0x5c && b[p + 7] == 0x75 {
                        match hex4(b, p + 8) {
                            Some(low) => if is_low_surrogate(low) {
                                Some(
                                    (
                                        (0x10000 + (code - 0xd800) * 0x400 + (low - 0xdc00)) as u32 as char,
                                        p + 12,
                                    ),
                                )
                            } else {
                                None
                            },
                            None => None,
                        }
                    } else {
                        None
                    }
                } else if is_low_surrogate(code) {
                    None
                } else {
                    Some((code as u32 as char, p + 6))
                },
                None => None,
            }
        } else {
            None
        }
    }
}

/// The characters of string contents `b` from byte `i` on: runs without a backslash
/// decoded as UTF-8, escape sequences replaced by the characters they stand for (the
/// decoding stops at a backslash that starts no escape sequence).
pub open spec fn unescape_from(b: Seq<u8>, i: int) -> Seq<char>
    decreases b.len() - i,
{
    if i < 0 || i >= b.len() {
        seq![]
    } else if b[i] != 0x5c {
        let j = next_backslash(b, i);
        proof {
            lemma_next_backslash(b, i);
        }
        decode_utf8(b.subrange(i, j)) + unescape_from(b, j)
    } else {
        match escape_at(b, i) {
            Some((c, k)) => if i < k {
                seq![c] + unescape_from(b, k)
            } else {
                seq![]
            },
            None => seq![],
        }
    }
}

/// The characters of string contents `b`, with escapes decoded.
pub open spec fn unescape(b: Seq<u8>) -> Seq<char> {
    unescape_from(b, 0)
}

/// The bytes between the quotes of the string value recorded as `e`.
pub open spec fn contents(t: Seq<u8>, e: Entry) -> Seq<u8> {
    t.subrange(e.start + 1, e.end - 1)
}

/// Entry `k` is a string whose unescaped contents are `name`.
pub open spec fn key_is(t: Seq<u8>, ev: Seq<Entry>, k: int, name: Seq<char>) -> bool {
    ev[k].kind == JsonValueKind::String && unescape(contents(t, ev[k])) == name
}

/// The value index of the first of the name and value pairs `ps`, from the `m`-th on,
/// whose name is `name`.
pub open spec fn find_member(
    t: Seq<u8>,
    ev: Seq<Entry>,
    ps: Seq<(int, int)>,
    name: Seq<char>,
    m: int,
) -> Option<int>
    decreases ps.len() - m,
{
    if 0 <= m < ps.len() {
        if key_is(t, ev, ps[m].0, name) {
            Some(ps[m].1)
        } else {
            find_member(t, ev, ps, name, m + 1)
        }
    } else {
        None
    }
}

/// The value index of the member of object `i` named `name`, if it has one.
pub open spec fn member_of(t: Seq<u8>, ev: Seq<Entry>, i: int, name: Seq<char>) -> Option<int> {
    find_member(t, ev, pairs(children(ev, i)), name, 0)
}

/// The reason given when a required member is missing.
pub open spec fn missing_message(name: Seq<char>) -> Seq<char> {
    "required member '"@ + name + "' is missing"@
}

/// How following a path of member names goes wrong.
pub enum PathError {
    /// The value at this index is not an object.
    NotObject(int),
    /// The object at this index has no member of this name.
    Missing(int, Seq<char>),
}

/// Following `path` from value `i`: every name but the last must name a member, whose
/// value the rest of the path goes on from; the last is looked up in the object
/// reached. The result is that object and the index of its member so named, if any.
pub open spec fn walk(t: Seq<u8>, ev: Seq<Entry>, i: int, path: Seq<Seq<char>>) -> Result<
    (int, Option<int>),
    PathError,
>
    decreases path.len(),
{
    if ev[i].kind != JsonValueKind::Object {
        Err(PathError::NotObject(i))
    } else if path.len() <= 1 {
        Ok((i, member_of(t, ev, i, path[0])))
    } else {
        match member_of(t, ev, i, path[0]) {
            Some(v) => walk(t, ev, v, path.drop_first()),
            None => Err(PathError::Missing(i, path[0])),
        }
    }
}

/// Parsed JSON text (syntactically correct, but not yet converted to Rust types).
///
/// It keeps the text as it is, together with the kind and the byte range of every
/// value in it, in document order.
#[derive(Debug)]
pub struct RawJson<'text> {
    text: &'text str,
    values: Vec<JsonValueIndexEntry>,
}

impl<'text> RawJson<'text> {
    #[verifier::type_invariant]
    closed spec fn inv(self) -> bool {
        &&& index_wf(self.text.spec_bytes(), entries_view(self.values@))
        &&& entries_wf(self.values@)
        &&& self.text.spec_bytes().len() <= usize::MAX
    }

    /// The text that was parsed.
    pub closed spec fn spec_text(self) -> &'text str {
        self.text
    }

    /// The bytes of the text that was parsed.
    pub open spec fn bytes(self) -> Seq<u8> {
        self.spec_text().spec_bytes()
    }

    /// Every value of the text, in document order, as the grammar records it.
    pub closed spec fn entries(self) -> Seq<Entry> {
        entries_view(self.values@)
    }

    /// Parses a JSON text into a [`RawJson`] instance.
    ///
    /// This validates the syntax without converting values to Rust types.
    pub fn parse(text: &'text str) -> (r: Result<Self, JsonParseError>)
        ensures
            match parse_text(text.spec_bytes(), false) {
                Ok((vals, _)) => match r {
                    Ok(j) => j.spec_text() == text && j.entries() == vals,
                    Err(_) => false,
                },
                Err(e) => match r {
                    Err(x) => error_matches(x, e),
                    Ok(_) => false,
                },
            },
    {
        let bytes = text.as_bytes();
        let _n = bytes.len();
        let parser = JsonParser::<Plain>::new(bytes);
        match parser.parse() {
            Ok((values, _)) => {
                proof {
                    lemma_parse_text_wf(text.spec_bytes(), false);
                }
                Ok(RawJson { text, values })
            },
            Err(e) => Err(e),
        }
    }

    /// Parses a JSONC text (JSON with `//` and `/* */` comments and trailing commas).
    ///
    /// Besides the value index, returns the byte range of every comment, in text order.
    pub fn parse_jsonc(text: &'text str) -> (r: Result<(Self, Vec<Range<usize>>), JsonParseError>)
        ensures
            match parse_text(text.spec_bytes(), true) {
                Ok((vals, cms)) => match r {
                    Ok((j, c)) => j.spec_text() == text && j.entries() == vals && comments_view(c@)
                        == cms && comments_ok(text.spec_bytes(), cms, text.spec_bytes().len() as int),
                    Err(_) => false,
                },
                Err(e) => match r {
                    Err(x) => error_matches(x, e),
                    Ok(_) => false,
                },
            },
    {
        let bytes = text.as_bytes();
        let _n = bytes.len();
        let parser = JsonParser::<Jsonc>::new(bytes);
        match parser.parse() {
            Ok((values, comments)) => {
                proof {
                    lemma_parse_text_wf(text.spec_bytes(), true);
                    lemma_parse_text_comments(text.spec_bytes(), true);
                }
                Ok((RawJson { text, values }, comments))
            },
            Err(e) => Err(e),
        }
    }

    /// Returns the original JSON text.
    pub fn text(&self) -> (s: &'text str)
        ensures
            s == self.spec_text(),
    {
        self.text
    }

    /// The JSON of the top-level value, compact (see [`RawJsonValue`]'s `fmt`).
    pub fn to_string(&self) -> (s: String)
        ensures
            s@ == value_json(self.bytes(), self.entries(), 0, 0, false, 0),
    {
        let mut f = JsonFormatter::new();
        let _ = self.value().write_json(&mut f);
        f.into_string()
    }

    /// The value index: every value of the text, in document order.
    pub(crate) fn index(&self) -> (v: &Vec<JsonValueIndexEntry>)
        ensures
            entries_view(v@) == self.entries(),
            entries_wf(v@),
            index_wf(self.bytes(), self.entries()),
            self.bytes().len() <= usize::MAX,
    {
        proof {
            use_type_invariant(self);
        }
        &self.values
    }

    /// Returns the top-level value of the JSON.
    pub fn value<'raw>(&'raw self) -> (v: RawJsonValue<'text, 'raw>)
        ensures
            v.bytes() == self.bytes(),
            v.entries() == self.entries(),
            v.spec_index() == 0,
    {
        proof {
            use_type_invariant(self);
        }
        RawJsonValue { text: self.text, values: &self.values, index: 0 }
    }

    /// Finds the most specific value whose text holds the byte at `position`: the
    /// top-level value if it holds it, then, while one of the children of the value
    /// found holds it, that child. `None` when the top-level value does not hold it.
    pub fn get_value_by_position<'raw>(&'raw self, position: usize) -> (r: Option<
        RawJsonValue<'text, 'raw>,
    >)
        ensures
            match value_at(self.entries(), position as int) {
                Some(i) => r matches Some(v) && v.spec_index() == i && v.bytes() == self.bytes()
                    && v.entries() == self.entries(),
                None => r is None,
            },
    {
        let v = self.value();
        proof {
            use_type_invariant(&v);
        }
        v.value_at_position(position)
    }
}

/// A value in a parsed text: the entry at an index of its value list.
#[derive(Debug, Clone, Copy, PartialEq, Eq)]
pub struct RawJsonValue<'text, 'raw> {
    text: &'text str,
    values: &'raw Vec<JsonValueIndexEntry>,
    index: usize,
}

impl<'text, 'raw> RawJsonValue<'text, 'raw> {
    #[verifier::type_invariant]
    closed spec fn inv(self) -> bool {
        &&& index_wf(self.text.spec_bytes(), entries_view(self.values@))
        &&& entries_wf(self.values@)
        &&& self.text.spec_bytes().len() <= usize::MAX
        &&& self.index < self.values@.len()
    }

    /// The bytes of the text that holds this value.
    pub closed spec fn bytes(self) -> Seq<u8> {
        self.text.spec_bytes()
    }

    /// Every value of that text, in document order.
    pub closed spec fn entries(self) -> Seq<Entry> {
        entries_view(self.values@)
    }

    /// The index of this value among them.
    pub closed spec fn spec_index(self) -> int {
        self.index as int
    }

    /// What the grammar recorded for this value.
    pub open spec fn entry(self) -> Entry {
        self.entries()[self.spec_index()]
    }

    /// `other` is a value of the same parsed text as `self`.
    pub open spec fn same_text(self, other: Self) -> bool {
        self.bytes() == other.bytes() && self.entries() == other.entries()
    }

    proof fn lemma_valid(self)
        requires
            self.inv(),
        ensures
            0 <= self.spec_index() < self.entries().len(),
            index_wf(self.bytes(), self.entries()),
            entry_in(self.bytes(), self.entries(), self.spec_index(), self.entries().len() as int),
            self.bytes().len() <= usize::MAX,
            self.values@[self.spec_index()].wf(),
            self.values@[self.spec_index()]@ == self.entry(),
            self.entries().len() == self.values@.len(),
    {
        assert(entry_in(
            self.bytes(),
            self.entries(),
            self.index as int,
            self.entries().len() as int,
        ));
    }

    /// The value of the same text at index `i`.
    fn at(self, i: usize) -> (v: Self)
        requires
            self.inv(),
            i < self.entries().len(),
        ensures
            v.spec_index() == i,
            v.same_text(self),
    {
        RawJsonValue { text: self.text, values: self.values, index: i }
    }

    /// Returns the kind of this JSON value.
    pub fn kind(self) -> (k: JsonValueKind)
        ensures
            k == self.entry().kind,
    {
        proof {
            use_type_invariant(&self);
            self.lemma_valid();
        }
        self.values[self.index].kind()
    }

    /// Returns the byte position where this value begins in the JSON text.
    pub fn position(self) -> (p: usize)
        ensures
            p == self.entry().start,
    {
        proof {
            use_type_invariant(&self);
            self.lemma_valid();
        }
        self.values[self.index].text_start()
    }

    /// Returns the raw JSON text of this value as-is.
    pub fn as_raw_str(self) -> (s: &'text str)
        ensures
            s.spec_bytes() == self.bytes().subrange(self.entry().start, self.entry().end),
    {
        proof {
            use_type_invariant(&self);
            self.lemma_valid();
        }
        let e = &self.values[self.index];
        let start = e.text_start();
        let end = e.text_end();
        proof {
            let b = self.bytes();
            lemma_str_valid(self.text);
            assert(ascii_edge(b, start as int));
            assert(ascii_edge(b, end as int));
            lemma_ascii_edge_boundary(b, start as int);
            lemma_ascii_edge_boundary(b, end as int);
        }
        str_slice(self.text, start, end)
    }

    /// The values of the same text whose indices make up the chain from `j` up to
    /// `end` (see [`chain`]).
    fn chain_values(self, j: usize, end: usize) -> (v: Vec<Self>)
        requires
            self.inv(),
            end <= self.entries().len(),
            forall|k: int| j <= k < end ==> #[trigger] self.entries()[k].end_index <= end,
        ensures
            v@.len() == chain(self.entries(), j as int, end as int).len(),
            forall|k: int|
                0 <= k < v@.len() ==> (#[trigger] v@[k]).spec_index() == chain(
                    self.entries(),
                    j as int,
                    end as int,
                )[k] && v@[k].same_text(self),
    {
        proof {
            self.lemma_valid();
        }
        let ghost ev = self.entries();
        let ghost whole = chain(ev, j as int, end as int);
        let mut v: Vec<Self> = Vec::new();
        let mut j = j;
        while j < end
            invariant
                self.inv(),
                ev == self.entries(),
                index_wf(self.bytes(), ev),
                ev.len() == self.values@.len(),
                end <= ev.len(),
                whole == v@.map_values(|x: Self| x.spec_index()) + chain(ev, j as int, end as int),
                forall|k: int| j <= k < end ==> #[trigger] ev[k].end_index <= end,
                forall|k: int| 0 <= k < v@.len() ==> (#[trigger] v@[k]).same_text(self),
            decreases end - j,
        {
            proof {
                assert(entry_in(self.bytes(), ev, j as int, ev.len() as int));
            }
            let x = self.at(j);
            let next = self.values[j].end_index();
            proof {
                assert(self.values@[j as int]@ == ev[j as int]);
                let old_v = v@;
                assert(chain(ev, j as int, end as int) == seq![j as int] + chain(ev, next as int, end as int));
                assert(old_v.push(x).map_values(|y: Self| y.spec_index()) =~= old_v.map_values(
                    |y: Self| y.spec_index(),
                ).push(j as int));
            }
            v.push(x);
            j = next;
        }
        proof {
            assert(chain(ev, j as int, end as int) =~= Seq::<int>::empty());
            assert(whole =~= v@.map_values(|x: Self| x.spec_index()));
            assert forall|k: int| 0 <= k < v@.len() implies (#[trigger] v@[k]).spec_index()
                == whole[k] by {
                assert(v@.map_values(|x: Self| x.spec_index())[k] == v@[k].spec_index());
            }
        }
        v
    }

    /// The most specific value at or below `self` whose text holds `pos`, if `self`
    /// holds it.
    fn value_at_position(self, pos: usize) -> (r: Option<Self>)
        requires
            self.inv(),
            self.spec_index() == 0,
        ensures
            match value_at(self.entries(), pos as int) {
                Some(i) => r matches Some(v) && v.spec_index() == i && v.same_text(self),
                None => r is None,
            },
    {
        proof {
            self.lemma_valid();
        }
        let ghost ev = self.entries();
        let e = &self.values[0];
        proof {
            assert(self.values@[0]@ == ev[0]);
        }
        if !(e.text_start() <= pos && pos < e.text_end()) {
            return None;
        }
        let mut i: usize = 0;
        loop
            invariant
                self.inv(),
                ev == self.entries(),
                index_wf(self.bytes(), ev),
                ev.len() == self.values@.len(),
                i < ev.len(),
                descend(ev, i as int, pos as int) == descend(ev, 0, pos as int),
                ev.len() > 0 && holds(ev[0], pos as int),
            decreases ev.len() - i,
        {
            proof {
                assert(entry_in(self.bytes(), ev, i as int, ev.len() as int));
            }
            let end = self.values[i].end_index();
            let mut j = i + 1;
            let mut found: Option<usize> = None;
            while j < end
                invariant
                    self.inv(),
                    ev == self.entries(),
                    index_wf(self.bytes(), ev),
                    ev.len() == self.values@.len(),
                    i < j,
                    end == ev[i as int].end_index,
                    end <= ev.len(),
                    entry_in(self.bytes(), ev, i as int, ev.len() as int),
                    found is None ==> chain_find(ev, j as int, end as int, pos as int) == chain_find(
                        ev,
                        i + 1,
                        end as int,
                        pos as int,
                    ),
                    found matches Some(c) ==> chain_find(ev, i + 1, end as int, pos as int) == Some(
                        c as int,
                    ),
                    found is Some ==> j >= end,
                decreases end - j,
            {
                proof {
                    assert(entry_in(self.bytes(), ev, j as int, ev.len() as int));
                    assert(self.values@[j as int]@ == ev[j as int]);
                    assert(ev[j as int].end_index <= ev[i as int].end_index);
                }
                let c = &self.values[j];
                if c.text_start() <= pos && pos < c.text_end() {
                    proof {
                        assert(holds(ev[j as int], pos as int));
                        assert(j < ev[j as int].end_index);
                        assert(ev[j as int].end_index <= end);
                        assert(chain_find(ev, j as int, end as int, pos as int) == Some(j as int));
                    }
                    found = Some(j);
                    j = end;
                } else {
                    j = c.end_index();
                }
            }
            proof {
                lemma_chain_find(ev, i + 1, end as int, pos as int);
            }
            match found {
                Some(c) => {
                    i = c;
                },
                None => {
                    return Some(self.at(i));
                },
            }
        }
    }
}

impl<'text, 'raw> RawJsonValue<'text, 'raw> {
    /// Returns the value (array or object) that holds this one: the most specific
    /// value whose text holds the byte just before this value. `None` for the
    /// top-level value.
    pub fn parent(self) -> (r: Option<Self>)
        ensures
            self.spec_index() == 0 ==> r is None,
            self.spec_index() != 0 ==> match value_at(self.entries(), self.entry().start - 1) {
                Some(i) => (r matches Some(v) && v.spec_index() == i && v.same_text(self)),
                None => r is None,
            },
    {
        proof {
            use_type_invariant(&self);
            self.lemma_valid();
        }
        if self.index == 0 {
            return None;
        }
        let position = self.position();
        if position == 0 {
            proof {
                assert(!holds(self.entries()[0], -1));
            }
            return None;
        }
        let root = self.at(0);
        proof {
            use_type_invariant(&root);
        }
        root.value_at_position(position - 1)
    }

    /// Creates a [`JsonParseError::InvalidValue`] error for this value, with `error`
    /// as its reason.
    pub fn invalid(self, error: String) -> (e: JsonParseError)
        ensures
            e == (JsonParseError::InvalidValue {
                kind: self.entry().kind,
                position: self.entry().start as usize,
                error,
            }),
    {
        JsonParseError::InvalidValue { kind: self.kind(), position: self.position(), error }
    }

    /// `self` when it is of `kind`; else the error that names the kind expected
    /// (`expected`) and the kind found.
    fn expect_kind(self, kind: JsonValueKind, expected: &str) -> (r: Result<Self, JsonParseError>)
        ensures
            self.entry().kind == kind ==> r == Ok::<Self, JsonParseError>(self),
            self.entry().kind != kind ==> (r matches Err(e) && kind_error(e, self.entry(), expected@)),
    {
        let found = self.kind();
        if found == kind {
            Ok(self)
        } else {
            let mut msg = String::new();
            string_push_str(&mut msg, "expected ");
            string_push_str(&mut msg, expected);
            string_push_str(&mut msg, ", but found ");
            string_push_str(&mut msg, found.debug_name());
            proof {
                assert(msg@ =~= expected_message(expected@, found));
            }
            Err(self.invalid(msg))
        }
    }

    /// The raw text of this value when it is a JSON boolean.
    pub fn as_boolean_str(self) -> (r: Result<&'text str, JsonParseError>)
        ensures
            self.entry().kind == JsonValueKind::Boolean ==> (r matches Ok(s) && s.spec_bytes() == self.bytes().subrange(self.entry().start, self.entry().end)),
            self.entry().kind != JsonValueKind::Boolean ==> (r matches Err(e) && kind_error(e, self.entry(), "Boolean"@)),
    {
        match self.expect_kind(JsonValueKind::Boolean, "Boolean") {
            Ok(v) => Ok(v.as_raw_str()),
            Err(e) => Err(e),
        }
    }

    /// The raw text of this value when it is a JSON integer: decimal digits, after a
    /// minus sign for a negative one.
    pub fn as_integer_str(self) -> (r: Result<&'text str, JsonParseError>)
        ensures
            self.entry().kind == JsonValueKind::Integer ==> (r matches Ok(s) && s.spec_bytes()
                == self.bytes().subrange(self.entry().start, self.entry().end) && integer_lexeme(
                s.spec_bytes(),
                0,
                s.spec_bytes().len() as int,
            )),
            self.entry().kind != JsonValueKind::Integer ==> (r matches Err(e) && kind_error(
                e,
                self.entry(),
                "Integer"@,
            )),
    {
        proof {
            use_type_invariant(&self);
            self.lemma_valid();
        }
        match self.expect_kind(JsonValueKind::Integer, "Integer") {
            Ok(v) => {
                let s = v.as_raw_str();
                proof {
                    let b = s.spec_bytes();
                    let e = self.entry();
                    assert(integer_lexeme(self.bytes(), e.start, e.end));
                    assert forall|k: int| 0 <= k < b.len() implies is_digit(#[trigger] b[k]) || (k
                        == 0 && b[k] == 0x2d) by {
                        assert(b[k] == self.bytes()[e.start + k]);
                    }
                }
                Ok(s)
            },
            Err(e) => Err(e),
        }
    }

    /// The raw text of this value when it is a JSON floating-point number.
    pub fn as_float_str(self) -> (r: Result<&'text str, JsonParseError>)
        ensures
            self.entry().kind == JsonValueKind::Float ==> (r matches Ok(s) && s.spec_bytes() == self.bytes().subrange(self.entry().start, self.entry().end)),
            self.entry().kind != JsonValueKind::Float ==> (r matches Err(e) && kind_error(e, self.entry(), "Float"@)),
    {
        match self.expect_kind(JsonValueKind::Float, "Float") {
            Ok(v) => Ok(v.as_raw_str()),
            Err(e) => Err(e),
        }
    }

    /// The raw text of this value when it is a JSON number (integer or
    /// floating-point).
    pub fn as_number_str(self) -> (r: Result<&'text str, JsonParseError>)
        ensures
            (self.entry().kind == JsonValueKind::Integer || self.entry().kind
                == JsonValueKind::Float) ==> (r matches Ok(s) && s.spec_bytes() == self.bytes().subrange(self.entry().start, self.entry().end)),
            !(self.entry().kind == JsonValueKind::Integer || self.entry().kind
                == JsonValueKind::Float) ==> (r matches Err(e) && kind_error(e, self.entry(), "one of [Integer, Float]"@)),
    {
        let kind = self.kind();
        if kind == JsonValueKind::Float {
            return Ok(self.as_raw_str());
        }
        match self.expect_kind(JsonValueKind::Integer, "one of [Integer, Float]") {
            Ok(v) => Ok(v.as_raw_str()),
            Err(e) => Err(e),
        }
    }

    /// The elements of this value when it is a JSON array, in order.
    pub fn to_array(self) -> (r: Result<Vec<Self>, JsonParseError>)
        ensures
            self.entry().kind == JsonValueKind::Array ==> (r matches Ok(v) && v@.len() == children(
                self.entries(),
                self.spec_index(),
            ).len() && forall|k: int|
                0 <= k < v@.len() ==> (#[trigger] v@[k]).spec_index() == children(
                    self.entries(),
                    self.spec_index(),
                )[k] && v@[k].same_text(self)),
            self.entry().kind != JsonValueKind::Array ==> (r matches Err(e) && kind_error(e, self.entry(), "Array"@)),
    {
        match self.expect_kind(JsonValueKind::Array, "Array") {
            Ok(v) => Ok(v.children_values()),
            Err(e) => Err(e),
        }
    }

    /// The values of the children of `self`, in order.
    fn children_values(self) -> (v: Vec<Self>)
        ensures
            v@.len() == children(self.entries(), self.spec_index()).len(),
            forall|k: int|
                0 <= k < v@.len() ==> (#[trigger] v@[k]).spec_index() == children(
                    self.entries(),
                    self.spec_index(),
                )[k] && v@[k].same_text(self),
    {
        proof {
            use_type_invariant(&self);
            self.lemma_valid();
        }
        let end = self.values[self.index].end_index();
        proof {
            let ev = self.entries();
            assert(self.values@[self.spec_index()]@ == ev[self.spec_index()]);
            assert forall|k: int| self.index + 1 <= k < end implies #[trigger] ev[k].end_index
                <= end by {
                assert(ev[k].end_index <= ev[self.spec_index()].end_index);
            }
        }
        self.chain_values(self.index + 1, end)
    }

    /// The members of this value when it is a JSON object, in order, each as its
    /// name and its value.
    pub fn to_object(self) -> (r: Result<Vec<(Self, Self)>, JsonParseError>)
        ensures
            self.entry().kind == JsonValueKind::Object ==> (r matches Ok(v) && v@.len() == pairs(
                children(self.entries(), self.spec_index()),
            ).len() && forall|m: int|
                0 <= m < v@.len() ==> (#[trigger] v@[m]).0.spec_index() == pairs(
                    children(self.entries(), self.spec_index()),
                )[m].0 && v@[m].1.spec_index() == pairs(
                    children(self.entries(), self.spec_index()),
                )[m].1 && v@[m].0.same_text(self) && v@[m].1.same_text(self)),
            self.entry().kind != JsonValueKind::Object ==> (r matches Err(e) && kind_error(e, self.entry(), "Object"@)),
    {
        match self.expect_kind(JsonValueKind::Object, "Object") {
            Ok(v) => Ok(v.member_pairs()),
            Err(e) => Err(e),
        }
    }

    /// The children of `self` taken two at a time, as names and values.
    fn member_pairs(self) -> (v: Vec<(Self, Self)>)
        ensures
            v@.len() == pairs(children(self.entries(), self.spec_index())).len(),
            forall|m: int|
                0 <= m < v@.len() ==> (#[trigger] v@[m]).0.spec_index() == pairs(
                    children(self.entries(), self.spec_index()),
                )[m].0 && v@[m].1.spec_index() == pairs(
                    children(self.entries(), self.spec_index()),
                )[m].1 && v@[m].0.same_text(self) && v@[m].1.same_text(self),
    {
        let c = self.children_values();
        let ghost ch = children(self.entries(), self.spec_index());
        let ghost ps = pairs(ch);
        let mut v: Vec<(Self, Self)> = Vec::new();
        let mut m: usize = 0;
        while m < c.len() / 2
            invariant
                c@.len() == ch.len(),
                ps == pairs(ch),
                forall|k: int|
                    0 <= k < c@.len() ==> (#[trigger] c@[k]).spec_index() == ch[k] && c@[k].same_text(
                        self,
                    ),
                m <= c@.len() / 2,
                v@.len() == m,
                forall|q: int|
                    0 <= q < m ==> (#[trigger] v@[q]).0.spec_index() == ps[q].0 && v@[q].1.spec_index()
                        == ps[q].1 && v@[q].0.same_text(self) && v@[q].1.same_text(self),
            decreases c@.len() / 2 - m,
        {
            let key = c[2 * m];
            let value = c[2 * m + 1];
            v.push((key, value));
            m = m + 1;
        }
        v
    }
}

/// The characters of the string contents `content`, with escapes decoded.
fn unescape_str(content: &str) -> (s: String)
    ensures
        s@ == unescape(content.spec_bytes()),
{
    let b = content.as_bytes();
    let len = b.len();
    let ghost bs = b@;
    let mut s = String::new();
    let mut i: usize = 0;
    proof {
        lemma_str_valid(content);
    }
    while i < len
        invariant
            bs == b@,
            bs == content.spec_bytes(),
            vstd::utf8::valid_utf8(bs),
            len == bs.len(),
            i <= len,
            ascii_edge(bs, i as int),
            s@ + unescape_from(bs, i as int) == unescape(bs),
        decreases len - i,
    {
        if b[i] != 0x5c {
            let mut j = i + 1;
            while j < len && b[j] != 0x5c
                invariant
                    i < j <= len,
                    len == bs.len(),
                    bs == b@,
                    i < len,
                    bs[i as int] != 0x5c,
                    next_backslash(bs, j as int) == next_backslash(bs, i as int),
                decreases len - j,
            {
                j = j + 1;
            }
            proof {
                lemma_next_backslash(bs, i as int);
                assert(ascii_edge(bs, j as int));
                lemma_ascii_edge_boundary(bs, i as int);
                lemma_ascii_edge_boundary(bs, j as int);
            }
            let run = str_slice(content, i, j);
            string_push_str(&mut s, run);
            proof {
                encode_utf8_decode_utf8(run@);
                assert(decode_utf8(bs.subrange(i as int, j as int)) == run@);
                assert(unescape_from(bs, i as int) == decode_utf8(bs.subrange(i as int, j as int))
                    + unescape_from(bs, j as int));
                assert(s@ + unescape_from(bs, j as int) =~= unescape(bs));
            }
            i = j;
        } else {
            match read_escape(b, i) {
                Some((c, k)) => {
                    string_push(&mut s, c);
                    proof {
                        assert(unescape_from(bs, i as int) == seq![c] + unescape_from(bs, k as int));
                        assert(s@ + unescape_from(bs, k as int) =~= unescape(bs));
                    }
                    i = k;
                },
                None => {
                    proof {
                        assert(unescape_from(bs, i as int) =~= Seq::<char>::empty());
                        assert(s@ =~= unescape(bs));
                    }
                    return s;
                },
            }
        }
    }
    proof {
        assert(unescape_from(bs, i as int) =~= Seq::<char>::empty());
        assert(s@ =~= unescape(bs));
    }
    s
}

/// Reads the escape sequence whose backslash is at `p` (see [`escape_at`]).
fn read_escape(b: &[u8], p: usize) -> (r: Option<(char, usize)>)
    requires
        p < b@.len(),
        b@[p as int] == 0x5c,
    ensures
        match escape_at(b@, p as int) {
            Some((c, k)) => r == Some((c, k as usize)) && p < k <= b@.len() && 0 < k && b@[k - 1] < 0x80,
            None => r is None,
        },
{
    let len = b.len();
    if len - p < 2 {
        return None;
    }
    let x = b[p + 1];
    if x == 0x22 {
        Some(('"', p + 2))
    } else if x == 0x5c {
        Some(('\\', p + 2))
    } else if x == 0x2f {
        Some(('/', p + 2))
    } else if x == 0x6e {
        Some(('\n', p + 2))
    } else if x == 0x74 {
        Some(('\t', p + 2))
    } else if x == 0x72 {
        Some(('\r', p + 2))
    } else if x == 0x62 {
        Some(('\u{8}', p + 2))
    } else if x == 0x66 {
        Some(('\u{c}', p + 2))
    } else if x == 0x75 {
        if len - p < 6 {
            return None;
        }
        let code = match hex4_at(b, p + 2) {
            Some(code) => code,
            None => return None,
        };
        proof {
            assert(hex4(b@, p + 2) == Some(code as int));
        }
        if 0xd800 <= code && code <= 0xdbff {
            if len - p < 12 || b[p + 6] != 0x5c || b[p + 7] != 0x75 {
                return None;
            }
            let low = match hex4_at(b, p + 8) {
                Some(low) => low,
                None => return None,
            };
            if !(0xdc00 <= low && low <= 0xdfff) {
                return None;
            }
            let combined = 0x10000 + (code - 0xd800) * 0x400 + (low - 0xdc00);
            match char_from_u32(combined) {
                Some(c) => Some((c, p + 12)),
                None => None,
            }
        } else if 0xdc00 <= code && code <= 0xdfff {
            None
        } else {
            match char_from_u32(code) {
                Some(c) => Some((c, p + 6)),
                None => None,
            }
        }
    } else {
        None
    }
}

/// `a` and `b` hold the same characters.
fn str_eq(a: &str, b: &str) -> (r: bool)
    ensures
        r == (a@ == b@),
{
    let x = a.as_bytes();
    let y = b.as_bytes();
    proof {
        encode_utf8_decode_utf8(a@);
        encode_utf8_decode_utf8(b@);
    }
    if x.len() != y.len() {
        return false;
    }
    let mut i: usize = 0;
    while i < x.len()
        invariant
            x@.len() == y@.len(),
            x@ == a.spec_bytes(),
            y@ == b.spec_bytes(),
            i <= x@.len(),
            forall|k: int| 0 <= k < i ==> x@[k] == y@[k],
        decreases x@.len() - i,
    {
        if x[i] != y[i] {
            return false;
        }
        i = i + 1;
    }
    proof {
        assert(x@ =~= y@);
    }
    true
}

/// The characters a `Cow` of text holds.
pub open spec fn cow_chars<'a>(c: Cow<'a, str>) -> Seq<char> {
    match c {
        Cow::Borrowed(s) => s@,
        Cow::Owned(s) => s@,
    }
}

/// The text of `c` as a `String` of its own.
pub(crate) fn cow_into_string<'a>(c: Cow<'a, str>) -> (s: String)
    ensures
        s@ == cow_chars(c),
{
    match c {
        Cow::Borrowed(t) => String::from_str(t),
        Cow::Owned(t) => t,
    }
}

/// `b` holds a backslash.
pub open spec fn has_backslash(b: Seq<u8>) -> bool {
    exists|k: int| 0 <= k < b.len() && b[k] == 0x5c
}

/// String contents without a backslash unescape to their UTF-8 decoding.
proof fn lemma_unescape_plain(b: Seq<u8>)
    requires
        !has_backslash(b),
    ensures
        unescape(b) == decode_utf8(b),
{
    if b.len() > 0 {
        lemma_next_backslash(b, 0);
        let j = next_backslash(b, 0);
        if j < b.len() {
            assert(b[j] == 0x5c);
        }
        assert(b.subrange(0, j) =~= b);
        assert(unescape_from(b, j) =~= Seq::<char>::empty());
    } else {
        assert(unescape(b) =~= Seq::<char>::empty());
        assert(decode_utf8(b) =~= Seq::<char>::empty());
    }
}

/// Whether `s` holds a backslash.
fn contains_backslash(s: &str) -> (r: bool)
    ensures
        r == has_backslash(s.spec_bytes()),
{
    let b = s.as_bytes();
    let mut i: usize = 0;
    while i < b.len()
        invariant
            b@ == s.spec_bytes(),
            i <= b@.len(),
            forall|k: int| 0 <= k < i ==> b@[k] != 0x5c,
        decreases b@.len() - i,
    {
        if b[i] == 0x5c {
            return true;
        }
        i = i + 1;
    }
    false
}

impl<'text, 'raw> RawJsonValue<'text, 'raw> {
    /// The unescaped contents of this value, when it is a JSON string.
    pub open spec fn unquoted(self) -> Seq<char> {
        unescape(contents(self.bytes(), self.entry()))
    }

    /// The contents of this value when it is a JSON string, with its escape sequences
    /// decoded: borrowed from the text when it holds no backslash, else a new string.
    pub fn to_unquoted_string_str(self) -> (r: Result<Cow<'text, str>, JsonParseError>)
        ensures
            self.entry().kind == JsonValueKind::String ==> (r matches Ok(c) && cow_chars(c)
                == self.unquoted() && (c is Borrowed <==> !has_backslash(
                contents(self.bytes(), self.entry()),
            ))),
            self.entry().kind != JsonValueKind::String ==> (r matches Err(e) && kind_error(
                e,
                self.entry(),
                "String"@,
            )),
    {
        match self.expect_kind(JsonValueKind::String, "String") {
            Ok(v) => {
                let content = v.content_str();
                if contains_backslash(content) {
                    Ok(Cow::Owned(unescape_str(content)))
                } else {
                    proof {
                        lemma_unescape_plain(content.spec_bytes());
                        encode_utf8_decode_utf8(content@);
                    }
                    Ok(Cow::Borrowed(content))
                }
            },
            Err(e) => Err(e),
        }
    }

    /// The text between the quotes of this string value.
    fn content_str(self) -> (c: &'text str)
        requires
            self.entry().kind == JsonValueKind::String,
        ensures
            c.spec_bytes() == contents(self.bytes(), self.entry()),
    {
        proof {
            use_type_invariant(&self);
            self.lemma_valid();
        }
        let e = &self.values[self.index];
        let start = e.text_start() + 1;
        let end = e.text_end() - 1;
        proof {
            let b = self.bytes();
            lemma_str_valid(self.text);
            assert(ascii_edge(b, start as int));
            assert(ascii_edge(b, end as int));
            lemma_ascii_edge_boundary(b, start as int);
            lemma_ascii_edge_boundary(b, end as int);
        }
        str_slice(self.text, start, end)
    }

    fn unquote(self) -> (s: String)
        requires
            self.entry().kind == JsonValueKind::String,
        ensures
            s@ == self.unquoted(),
    {
        unescape_str(self.content_str())
    }

    /// Looks up the member named `name` of this value, which must be a JSON object:
    /// the first member whose name, unescaped, is `name`.
    pub fn to_member<'a>(self, name: &'a str) -> (r: Result<RawJsonMember<'text, 'raw, 'a>, JsonParseError>)
        ensures
            self.entry().kind == JsonValueKind::Object ==> (r matches Ok(m) && m.spec_object()
                == self && m.spec_name() == name && match member_of(
                self.bytes(),
                self.entries(),
                self.spec_index(),
                name@,
            ) {
                Some(i) => (m.spec_member() matches Some(v) && v.spec_index() == i && v.same_text(
                    self,
                )),
                None => m.spec_member() is None,
            }),
            self.entry().kind != JsonValueKind::Object ==> (r matches Err(e) && kind_error(
                e,
                self.entry(),
                "Object"@,
            )),
    {
        let members = match self.to_object() {
            Ok(members) => members,
            Err(e) => return Err(e),
        };
        let ghost ps = pairs(children(self.entries(), self.spec_index()));
        let mut m: usize = 0;
        while m < members.len()
            invariant
                self.entry().kind == JsonValueKind::Object,
                members@.len() == ps.len(),
                forall|q: int|
                    0 <= q < members@.len() ==> (#[trigger] members@[q]).0.spec_index() == ps[q].0
                        && members@[q].1.spec_index() == ps[q].1 && members@[q].0.same_text(self)
                        && members@[q].1.same_text(self),
                m <= members@.len(),
                find_member(self.bytes(), self.entries(), ps, name@, m as int) == member_of(
                    self.bytes(),
                    self.entries(),
                    self.spec_index(),
                    name@,
                ),
            decreases members@.len() - m,
        {
            let (key, value) = members[m];
            if key.kind() == JsonValueKind::String {
                let k = key.unquote();
                if str_eq(k.as_str(), name) {
                    return Ok(RawJsonMember { object: self, name, member: Some(value) });
                }
            }
            m = m + 1;
        }
        Ok(RawJsonMember { object: self, name, member: None })
    }

    /// The value of the member named `name` of this value, which must be a JSON
    /// object having one (see [`RawJsonValue::to_member`] and
    /// [`RawJsonMember::required`]).
    pub fn to_required_member(self, name: &str) -> (r: Result<Self, JsonParseError>)
        ensures
            self.entry().kind != JsonValueKind::Object ==> (r matches Err(e) && kind_error(
                e,
                self.entry(),
                "Object"@,
            )),
            self.entry().kind == JsonValueKind::Object ==> match member_of(
                self.bytes(),
                self.entries(),
                self.spec_index(),
                name@,
            ) {
                Some(i) => (r matches Ok(v) && v.spec_index() == i && v.same_text(self)),
                None => (r matches Err(e) && e == (JsonParseError::InvalidValue {
                    kind: self.entry().kind,
                    position: self.entry().start as usize,
                    error: e->error,
                }) && e->error@ == missing_message(name@)),
            },
    {
        match self.to_member(name) {
            Ok(member) => member.required(),
            Err(e) => Err(e),
        }
    }

    /// Follows `path`, a list of member names, from this value: each name but the
    /// last must name a member whose value the rest of the path is looked up in; the
    /// last name is looked up as [`RawJsonValue::to_member`] does.
    pub fn to_path_member<'a>(self, path: &[&'a str]) -> (r: Result<
        RawJsonMember<'text, 'raw, 'a>,
        JsonParseError,
    >)
        ensures
            path@.len() == 0 ==> r == Err::<RawJsonMember<'text, 'raw, 'a>, JsonParseError>(
                JsonParseError::InvalidValue {
                    kind: self.entry().kind,
                    position: self.entry().start as usize,
                    error: r->Err_0->error,
                },
            ) && r->Err_0->error@ == "path must not be empty"@,
            path@.len() > 0 ==> match walk(
                self.bytes(),
                self.entries(),
                self.spec_index(),
                path@.map_values(|s: &str| s@),
            ) {
                Ok((o, found)) => (r matches Ok(m) && m.spec_object().spec_index() == o
                    && m.spec_object().same_text(self) && m.spec_name() == path@.last() && match found {
                    Some(i) => (m.spec_member() matches Some(v) && v.spec_index() == i
                        && v.same_text(self)),
                    None => m.spec_member() is None,
                }),
                Err(PathError::NotObject(i)) => (r matches Err(e) && kind_error(
                    e,
                    self.entries()[i],
                    "Object"@,
                )),
                Err(PathError::Missing(i, name)) => (r matches Err(e) && e == (
                JsonParseError::InvalidValue {
                    kind: self.entries()[i].kind,
                    position: self.entries()[i].start as usize,
                    error: e->error,
                }) && e->error@ == missing_message(name)),
            },
    {
        if path.len() == 0 {
            let mut msg = String::new();
            string_push_str(&mut msg, "path must not be empty");
            return Err(self.invalid(msg));
        }
        let ghost names = path@.map_values(|s: &str| s@);
        proof {
            assert(names.subrange(0, names.len() as int) =~= names);
        }
        let mut value = self;
        let mut k: usize = 0;
        let n = path.len();
        while k + 1 < n
            invariant
                0 <= k < path@.len(),
                n == path@.len(),
                k < n,
                names == path@.map_values(|s: &str| s@),
                value.same_text(self),
                walk(self.bytes(), self.entries(), value.spec_index(), names.subrange(
                    k as int,
                    names.len() as int,
                )) == walk(self.bytes(), self.entries(), self.spec_index(), names),
            decreases path@.len() - k,
        {
            let ghost rest = names.subrange(k as int, names.len() as int);
            proof {
                assert(rest[0] == path@[k as int]@);
                assert(rest.drop_first() =~= names.subrange(k + 1, names.len() as int));
            }
            let member = match value.to_member(path[k]) {
                Ok(member) => member,
                Err(e) => return Err(e),
            };
            value = match member.required() {
                Ok(v) => v,
                Err(e) => return Err(e),
            };
            k = k + 1;
        }
        proof {
            let rest = names.subrange(k as int, names.len() as int);
            assert(rest.len() == 1);
            assert(rest[0] == path@[k as int]@);
        }
        value.to_member(path[k])
    }
}

/// The name that an object member is written with: the unescaped contents of the
/// name (names of a parsed object are strings), or its text when it is no string.
pub open spec fn member_name(t: Seq<u8>, e: Entry) -> Seq<char> {
    if e.kind == JsonValueKind::String {
        unescape(contents(t, e))
    } else {
        decode_utf8(t.subrange(e.start, e.end))
    }
}

/// The JSON text that a formatter with `indent_size` and `spacing`, at `level`,
/// writes for value `i`: a scalar as it is in the text, a string re-escaped, and the
/// elements or members of a container in the formatter's layout.
pub open spec fn value_json(
    t: Seq<u8>,
    ev: Seq<Entry>,
    i: int,
    indent_size: usize,
    spacing: bool,
    level: usize,
) -> Seq<char>
    decreases ev.len() - i, 2int, 0int,
{
    if !(0 <= i < ev.len()) {
        seq![]
    } else if ev[i].kind == JsonValueKind::Array {
        let n = children(ev, i).len() as int;
        seq!['['] + elements_json(t, ev, i, n, indent_size, spacing, next_level(level)) + (if n
            == 0 {
            Seq::<char>::empty()
        } else {
            indentation(indent_size, level)
        }).push(']')
    } else if ev[i].kind == JsonValueKind::Object {
        let n = pairs(children(ev, i)).len() as int;
        seq!['{'] + members_json(t, ev, i, n, indent_size, spacing, next_level(level)) + (if n
            == 0 {
            Seq::<char>::empty()
        } else if indent_size > 0 {
            indentation(indent_size, level)
        } else if spacing {
            seq![' ']
        } else {
            Seq::<char>::empty()
        }).push('}')
    } else if ev[i].kind == JsonValueKind::String {
        quoted(unescape(contents(t, ev[i])))
    } else {
        decode_utf8(t.subrange(ev[i].start, ev[i].end))
    }
}

/// The first `k` elements of array `i`, each after its separator and line start.
pub open spec fn elements_json(
    t: Seq<u8>,
    ev: Seq<Entry>,
    i: int,
    k: int,
    indent_size: usize,
    spacing: bool,
    inner: usize,
) -> Seq<char>
    decreases ev.len() - i, 1int, k,
{
    if k <= 0 || !(0 <= i < ev.len()) {
        seq![]
    } else {
        let c = children(ev, i)[k - 1];
        elements_json(t, ev, i, k - 1, indent_size, spacing, inner) + element_prefix(
            k == 1,
            indent_size,
            spacing,
            inner,
        ) + (if i < c < ev.len() {
            value_json(t, ev, c, indent_size, spacing, inner)
        } else {
            seq![]
        })
    }
}

/// The first `k` members of object `i`, each as its name and its value.
pub open spec fn members_json(
    t: Seq<u8>,
    ev: Seq<Entry>,
    i: int,
    k: int,
    indent_size: usize,
    spacing: bool,
    inner: usize,
) -> Seq<char>
    decreases ev.len() - i, 1int, k,
{
    if k <= 0 || !(0 <= i < ev.len()) {
        seq![]
    } else {
        let m = pairs(children(ev, i))[k - 1];
        members_json(t, ev, i, k - 1, indent_size, spacing, inner) + (if 0 <= m.0 < ev.len() {
            member_head(member_name(t, ev[m.0]), k == 1, indent_size, spacing, inner)
        } else {
            seq![]
        }) + (if i < m.1 < ev.len() {
            value_json(t, ev, m.1, indent_size, spacing, inner)
        } else {
            seq![]
        })
    }
}

impl<'text, 'raw> RawJsonValue<'text, 'raw> {
    /// The children of this value lie after it in the index.
    proof fn lemma_children_after(self, k: int)
        requires
            self.inv(),
            0 <= k < children(self.entries(), self.spec_index()).len(),
        ensures
            self.spec_index() < children(self.entries(), self.spec_index())[k] < self.entries().len(),
    {
        self.lemma_valid();
        let ev = self.entries();
        let i = self.spec_index();
        crate::jsonc_layout::lemma_chain_bounds(ev, i + 1, ev[i].end_index);
    }

    /// The name of a member, as it is written: see [`member_name`].
    fn name_text(self) -> (s: String)
        ensures
            s@ == member_name(self.bytes(), self.entry()),
    {
        proof {
            use_type_invariant(&self);
            self.lemma_valid();
        }
        if self.kind() == JsonValueKind::String {
            self.unquote()
        } else {
            let raw = self.as_raw_str();
            proof {
                encode_utf8_decode_utf8(raw@);
            }
            raw.to_owned()
        }
    }

    /// Writes this value as JSON through `f` (see [`value_json`]).
    fn write_json(self, f: &mut JsonFormatter) -> (r: Result<(), core::fmt::Error>)
        ensures
            r is Ok,
            final(f).out() == old(f).out() + value_json(
                self.bytes(),
                self.entries(),
                self.spec_index(),
                old(f).spec_indent_size(),
                old(f).spec_spacing(),
                old(f).spec_level(),
            ),
            final(f).same_settings(old(f)),
        decreases self.entries().len() - self.spec_index(),
    {
        proof {
            use_type_invariant(&self);
            self.lemma_valid();
        }
        let ghost t = self.bytes();
        let ghost ev = self.entries();
        let ghost i = self.spec_index();
        let ghost ind = f.spec_indent_size();
        let ghost sp = f.spec_spacing();
        let ghost lv = f.spec_level();
        let ghost o = f.out();
        match self.kind() {
            JsonValueKind::Array => {
                let items = self.children_values();
                let level = f.write_array_start();
                let ghost inner = f.spec_level();
                let ghost o1 = f.out();
                let mut k: usize = 0;
                while k < items.len()
                    invariant
                        self.inv(),
                        t == self.bytes(),
                        ev == self.entries(),
                        i == self.spec_index(),
                        0 <= i < ev.len(),
                        ev[i].kind == JsonValueKind::Array,
                        items@.len() == children(ev, i).len(),
                        forall|q: int|
                            0 <= q < items@.len() ==> (#[trigger] items@[q]).spec_index() == children(
                                ev,
                                i,
                            )[q] && items@[q].same_text(self),
                        k <= items@.len(),
                        inner == next_level(lv),
                        f.spec_level() == inner,
                        f.spec_indent_size() == ind,
                        f.spec_spacing() == sp,
                        level == lv,
                        f.out() == o1 + elements_json(t, ev, i, k as int, ind, sp, inner),
                    decreases items@.len() - k,
                {
                    let item = items[k];
                    proof {
                        self.lemma_children_after(k as int);
                    }
                    f.write_element_prefix(k == 0);
                    let r = item.write_json(f);
                    proof {
                        let c = children(ev, i)[k as int];
                        assert(f.out() =~= o1 + elements_json(t, ev, i, k + 1, ind, sp, inner));
                    }
                    k = k + 1;
                }
                let ghost n = items@.len();
                f.write_array_end(level, items.len() == 0);
                proof {
                    assert(f.out() =~= o + value_json(t, ev, i, ind, sp, lv));
                }
                Ok(())
            },
            JsonValueKind::Object => {
                let members = self.member_pairs();
                let level = f.write_object_start();
                let ghost inner = f.spec_level();
                let ghost o1 = f.out();
                let mut k: usize = 0;
                while k < members.len()
                    invariant
                        self.inv(),
                        t == self.bytes(),
                        ev == self.entries(),
                        i == self.spec_index(),
                        0 <= i < ev.len(),
                        ev[i].kind == JsonValueKind::Object,
                        members@.len() == pairs(children(ev, i)).len(),
                        forall|q: int|
                            0 <= q < members@.len() ==> (#[trigger] members@[q]).0.spec_index()
                                == pairs(children(ev, i))[q].0 && members@[q].1.spec_index()
                                == pairs(children(ev, i))[q].1 && members@[q].0.same_text(self)
                                && members@[q].1.same_text(self),
                        k <= members@.len(),
                        inner == next_level(lv),
                        f.spec_level() == inner,
                        f.spec_indent_size() == ind,
                        f.spec_spacing() == sp,
                        level == lv,
                        f.out() == o1 + members_json(t, ev, i, k as int, ind, sp, inner),
                    decreases members@.len() - k,
                {
                    let (name, value) = members[k];
                    proof {
                        self.lemma_children_after(2 * k + 1);
                        self.lemma_children_after(2 * k as int);
                    }
                    let text = name.name_text();
                    f.write_member_name(text.as_str(), k == 0);
                    let r = value.write_json(f);
                    proof {
                        assert(f.out() =~= o1 + members_json(t, ev, i, k + 1, ind, sp, inner));
                    }
                    k = k + 1;
                }
                f.write_object_end(level, members.len() == 0);
                proof {
                    assert(f.out() =~= o + value_json(t, ev, i, ind, sp, lv));
                }
                Ok(())
            },
            JsonValueKind::String => {
                let text = self.unquote();
                let r = f.string(text.as_str());
                Ok(())
            },
            _ => {
                let raw = self.as_raw_str();
                proof {
                    encode_utf8_decode_utf8(raw@);
                }
                let s = f.inner_mut();
                string_push_str(s, raw);
                Ok(())
            },
        }
    }
}

impl<'text, 'raw> DisplayJson for RawJsonValue<'text, 'raw> {
    open spec fn obeys_json(&self) -> bool {
        true
    }

    open spec fn json_result(&self, indent_size: usize, spacing: bool, level: usize) -> Option<Seq<char>> {
        Some(value_json(self.bytes(), self.entries(), self.spec_index(), indent_size, spacing, level))
    }

    /// Writes the value as JSON: scalars as they are in the text, strings
    /// re-escaped, arrays and objects in the formatter's layout.
    fn fmt(&self, f: &mut JsonFormatter) -> (r: Result<(), core::fmt::Error>)
        ensures
            r is Ok,
            final(f).out() == old(f).out() + value_json(
                self.bytes(),
                self.entries(),
                self.spec_index(),
                old(f).spec_indent_size(),
                old(f).spec_spacing(),
                old(f).spec_level(),
            ),
            final(f).same_settings(old(f)),
    {
        self.write_json(f)
    }
}

impl<'text> DisplayJson for RawJson<'text> {
    open spec fn obeys_json(&self) -> bool {
        true
    }

    open spec fn json_result(&self, indent_size: usize, spacing: bool, level: usize) -> Option<Seq<char>> {
        Some(value_json(self.bytes(), self.entries(), 0, indent_size, spacing, level))
    }

    /// Writes the top-level value as JSON (see [`RawJsonValue`]'s `fmt`).
    fn fmt(&self, f: &mut JsonFormatter) -> (r: Result<(), core::fmt::Error>)
        ensures
            r is Ok,
            final(f).out() == old(f).out() + value_json(
                self.bytes(),
                self.entries(),
                0,
                old(f).spec_indent_size(),
                old(f).spec_spacing(),
                old(f).spec_level(),
            ),
            final(f).same_settings(old(f)),
    {
        self.value().write_json(f)
    }
}

/// The result of looking up a member of a JSON object by name: the object, the name,
/// and the member's value when the object has one so named.
#[derive(Debug, Clone, Copy, PartialEq, Eq)]
pub struct RawJsonMember<'text, 'raw, 'a> {
    object: RawJsonValue<'text, 'raw>,
    name: &'a str,
    member: Option<RawJsonValue<'text, 'raw>>,
}

impl<'text, 'raw, 'a> RawJsonMember<'text, 'raw, 'a> {
    /// The object the member was looked up in.
    pub closed spec fn spec_object(self) -> RawJsonValue<'text, 'raw> {
        self.object
    }

    /// The name looked up.
    pub closed spec fn spec_name(self) -> &'a str {
        self.name
    }

    /// The member's value, if the object has one so named.
    pub closed spec fn spec_member(self) -> Option<RawJsonValue<'text, 'raw>> {
        self.member
    }

    /// Returns the member's value, or an error naming the member when it is missing.
    pub fn required(self) -> (r: Result<RawJsonValue<'text, 'raw>, JsonParseError>)
        ensures
            self.spec_member() matches Some(v) ==> r == Ok::<RawJsonValue<'text, 'raw>, JsonParseError>(v),
            self.spec_member() is None ==> (r matches Err(e) && e == (JsonParseError::InvalidValue {
                kind: self.spec_object().entry().kind,
                position: self.spec_object().entry().start as usize,
                error: e->error,
            }) && e->error@ == missing_message(self.spec_name()@)),
    {
        match self.member {
            Some(v) => Ok(v),
            None => {
                let mut msg = String::new();
                string_push_str(&mut msg, "required member '");
                string_push_str(&mut msg, self.name);
                string_push_str(&mut msg, "' is missing");
                proof {
                    assert(msg@ =~= missing_message(self.name@));
                }
                Err(self.object.invalid(msg))
            },
        }
    }

    /// Returns the member's value, if the object has one so named.
    pub fn optional(self) -> (r: Option<RawJsonValue<'text, 'raw>>)
        ensures
            r == self.spec_member(),
    {
        self.member
    }

    /// Returns the member's value, if the object has one so named.
    pub fn get(self) -> (r: Option<RawJsonValue<'text, 'raw>>)
        ensures
            r == self.spec_member(),
    {
        self.member
    }

    /// Converts the member's value with `f`, when the object has one so named:
    /// `Ok(None)` when it has none, else what `f` gives, in `Some` when it succeeds.
    pub fn map<F, T>(self, f: F) -> (r: Result<Option<T>, JsonParseError>)
        where
            F: FnOnce(RawJsonValue<'text, 'raw>) -> Result<T, JsonParseError>,
        requires
            forall|v: RawJsonValue<'text, 'raw>| f.requires((v,)),
        ensures
            match self.spec_member() {
                None => r matches Ok(None),
                Some(v) => exists|fr: Result<T, JsonParseError>|
                    #![trigger call_ensures(f, (v,), fr)]
                    call_ensures(f, (v,), fr) && match fr {
                        Ok(x) => r matches Ok(Some(y)) && y == x,
                        Err(e) => r matches Err(e2) && e2 == e,
                    },
            },
    {
        match self.member {
            Some(v) => match f(v) {
                Ok(x) => Ok(Some(x)),
                Err(e) => Err(e),
            },
            None => Ok(None),
        }
    }
}

/// A parsed JSON text that owns its text (see [`RawJson`]).
#[derive(Debug)]
pub struct RawJsonOwned {
    text: String,
    values: Vec<JsonValueIndexEntry>,
}

impl RawJsonOwned {
    #[verifier::type_invariant]
    closed spec fn inv(self) -> bool {
        &&& index_wf(encode_utf8(self.text@), entries_view(self.values@))
        &&& entries_wf(self.values@)
        &&& encode_utf8(self.text@).len() <= usize::MAX
    }

    /// The bytes of the text.
    pub closed spec fn bytes(self) -> Seq<u8> {
        encode_utf8(self.text@)
    }

    /// Every value of the text, in document order, as the grammar records it.
    pub closed spec fn entries(self) -> Seq<Entry> {
        entries_view(self.values@)
    }

    /// Parses a copy of `text` as JSON (see [`RawJson::parse`]).
    pub fn parse(text: &str) -> (r: Result<Self, JsonParseError>)
        ensures
            match parse_text(text.spec_bytes(), false) {
                Ok((vals, _)) => (r matches Ok(j) && j.bytes() == text.spec_bytes() && j.entries()
                    == vals),
                Err(e) => (r matches Err(x) && error_matches(x, e)),
            },
    {
        let bytes = text.as_bytes();
        let _n = bytes.len();
        let parser = JsonParser::<Plain>::new(bytes);
        match parser.parse() {
            Ok((values, _)) => {
                proof {
                    lemma_parse_text_wf(text.spec_bytes(), false);
                }
                Ok(RawJsonOwned { text: text.to_owned(), values })
            },
            Err(e) => Err(e),
        }
    }

    /// Parses a copy of `text` as JSONC (see [`RawJson::parse_jsonc`]).
    pub fn parse_jsonc(text: &str) -> (r: Result<(Self, Vec<Range<usize>>), JsonParseError>)
        ensures
            match parse_text(text.spec_bytes(), true) {
                Ok((vals, cms)) => (r matches Ok((j, c)) && j.bytes() == text.spec_bytes()
                    && j.entries() == vals && comments_view(c@) == cms),
                Err(e) => (r matches Err(x) && error_matches(x, e)),
            },
    {
        let bytes = text.as_bytes();
        let _n = bytes.len();
        let parser = JsonParser::<Jsonc>::new(bytes);
        match parser.parse() {
            Ok((values, comments)) => {
                proof {
                    lemma_parse_text_wf(text.spec_bytes(), true);
                }
                Ok((RawJsonOwned { text: text.to_owned(), values }, comments))
            },
            Err(e) => Err(e),
        }
    }

    /// Returns the JSON text.
    pub fn text(&self) -> (s: &str)
        ensures
            s.spec_bytes() == self.bytes(),
    {
        self.text.as_str()
    }

    /// A copy of the JSON text.
    pub fn to_string(&self) -> (s: String)
        ensures
            encode_utf8(s@) == self.bytes(),
    {
        self.text.as_str().to_owned()
    }

    /// Returns the top-level value of the JSON.
    pub fn value(&self) -> (v: RawJsonValue<'_, '_>)
        ensures
            v.bytes() == self.bytes(),
            v.entries() == self.entries(),
            v.spec_index() == 0,
    {
        proof {
            use_type_invariant(self);
        }
        RawJsonValue { text: self.text.as_str(), values: &self.values, index: 0 }
    }

    /// Parses the JSON text that `f` writes through a [`JsonFormatter`].
    pub fn json<F>(f: F) -> (r: Result<Self, JsonParseError>)
        where
            F: FnOnce(&mut JsonFormatter) -> Result<(), core::fmt::Error>,
        requires
            forall|x: &mut JsonFormatter| f.requires((x,)),
        ensures
            r matches Ok(j) ==> (parse_text(j.bytes(), false) matches Ok((vals, _)) && j.entries()
                == vals),
            exists|x: &mut JsonFormatter, fr: Result<(), core::fmt::Error>|
                #![trigger call_ensures(f, (x,), fr)]
                x.out() == Seq::<char>::empty() && x.spec_level() == 0 && x.spec_indent_size() == 0
                    && !x.spec_spacing() && call_ensures(f, (x,), fr)
                    && match parse_text(encode_utf8(final(x).out()), false) {
                        Ok((vals, _)) => (r matches Ok(j) && j.bytes() == encode_utf8(final(x).out()) && j.entries() == vals),
                        Err(e) => (r matches Err(x) && error_matches(x, e)),
                    },
    {
        let mut fmt = JsonFormatter::new();
        let _ = f(&mut fmt);
        let text = fmt.into_string();
        Self::parse(text.as_str())
    }

    /// Parses the JSON array whose elements `f` writes (see [`JsonFormatter::array`]).
    pub fn array<F>(f: F) -> (r: Result<Self, JsonParseError>)
        where
            F: FnOnce(&mut JsonArrayFormatter) -> Result<(), core::fmt::Error>,
        requires
            forall|a: &mut JsonArrayFormatter| f.requires((a,)),
        ensures
            r matches Ok(j) ==> (parse_text(j.bytes(), false) matches Ok((vals, _)) && j.entries()
                == vals),
            exists|s: Seq<char>, a: &mut JsonArrayFormatter, fr: Result<(), core::fmt::Error>|
                #![trigger call_ensures(f, (a,), fr), encode_utf8(s)]
                a.spec_empty() && a.out() == seq!['['] && a.spec_outer_level() == 0
                    && a.spec_level() == 1 && a.spec_indent_size() == 0 && !a.spec_spacing()
                    && call_ensures(f, (a,), fr) && (fr is Ok ==> s == final(a).out().push(']'))
                    && match parse_text(encode_utf8(s), false) {
                        Ok((vals, _)) => (r matches Ok(j) && j.bytes() == encode_utf8(s) && j.entries() == vals),
                        Err(e) => (r matches Err(x) && error_matches(x, e)),
                    },
    {
        let mut fmt = JsonFormatter::new();
        let _ = fmt.array(f);
        let text = fmt.into_string();
        let t = text.as_str();
        proof {
            assert(t.spec_bytes() == encode_utf8(text@));
        }
        Self::parse(t)
    }

    /// Parses the JSON object whose members `f` writes (see [`JsonFormatter::object`]).
    pub fn object<F>(f: F) -> (r: Result<Self, JsonParseError>)
        where
            F: FnOnce(&mut JsonObjectFormatter) -> Result<(), core::fmt::Error>,
        requires
            forall|a: &mut JsonObjectFormatter| f.requires((a,)),
        ensures
            r matches Ok(j) ==> (parse_text(j.bytes(), false) matches Ok((vals, _)) && j.entries()
                == vals),
            exists|s: Seq<char>, a: &mut JsonObjectFormatter, fr: Result<(), core::fmt::Error>|
                #![trigger call_ensures(f, (a,), fr), encode_utf8(s)]
                a.spec_empty() && a.out() == seq!['{'] && a.spec_outer_level() == 0
                    && a.spec_level() == 1 && a.spec_indent_size() == 0 && !a.spec_spacing()
                    && call_ensures(f, (a,), fr) && (fr is Ok ==> s == final(a).out().push('}'))
                    && match parse_text(encode_utf8(s), false) {
                        Ok((vals, _)) => (r matches Ok(j) && j.bytes() == encode_utf8(s) && j.entries() == vals),
                        Err(e) => (r matches Err(x) && error_matches(x, e)),
                    },
    {
        let mut fmt = JsonFormatter::new();
        let _ = fmt.object(f);
        let text = fmt.into_string();
        let t = text.as_str();
        proof {
            assert(t.spec_bytes() == encode_utf8(text@));
        }
        Self::parse(t)
    }
}

impl core::str::FromStr for RawJsonOwned {
    type Err = JsonParseError;

    fn from_str(s: &str) -> (r: Result<Self, JsonParseError>)
        ensures
            match parse_text(s.spec_bytes(), false) {
                Ok((vals, _)) => (r matches Ok(j) && j.bytes() == s.spec_bytes() && j.entries() == vals),
                Err(e) => (r matches Err(x) && error_matches(x, e)),
            },
    {
        Self::parse(s)
    }
}

} // verus!
