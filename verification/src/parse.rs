//! The parser: validates a JSON (or JSONC) text and records every value in it, in
//! document order, as a flat list of entries.
use core::marker::PhantomData;
use core::ops::Range;
use vstd::prelude::*;
use crate::error::{JsonParseError, error_matches};
use crate::grammar::{
    Entry,
    MAX_NESTING_DEPTH,
    PErr,
    PState,
    block_comment_end,
    eos_error,
    finish_entry,
    initial_state,
    lemma_block_comment_end,
    lemma_line_comment_end,
    lemma_skip_ws,
    line_comment_end,
    push_entry,
    skip_wc,
    skip_ws,
    value_char_error,
    parse_literal,
    literal_mismatch,
    parse_number,
    digits,
    lemma_count_digits,
    is_digit,
    parse_string,
    scan_string,
    set_last_escaped,
    lemma_scan_skip,
    is_plain_string_byte,
    hex4,
    is_hex_digit,
    hex_value,
    with_kind,
    parse_value,
    parse_array,
    array_items,
    parse_object,
    object_members,
    at,
    parse_text,
};
use crate::error::too_deep;
use crate::kind::JsonValueKind;
use crate::scan::{skip_ascii_digits, skip_non_ascii_bytes, skip_plain_ascii_bytes, is_plain_ascii};
use vstd::slice::slice_subrange;
use crate::values::JsonValueIndexEntry;

verus! {

/// The syntax extensions that a parser accepts.
pub trait Extensions {
    /// Whether comments and trailing commas are accepted (JSONC).
    spec fn jsonc() -> bool;

    /// Whether `//` and `/* */` comments are accepted.
    fn allow_comments() -> (b: bool)
        ensures
            b == Self::jsonc(),
    ;

    /// Whether a comma may follow the last element or member.
    fn allow_trailing_commas() -> (b: bool)
        ensures
            b == Self::jsonc(),
    ;
}

/// Plain JSON.
#[derive(Debug)]
pub struct Plain;

impl Extensions for Plain {
    open spec fn jsonc() -> bool {
        false
    }

    fn allow_comments() -> (b: bool) {
        false
    }

    fn allow_trailing_commas() -> (b: bool) {
        false
    }
}

/// JSON with comments and trailing commas.
#[derive(Debug)]
pub struct Jsonc;

impl Extensions for Jsonc {
    open spec fn jsonc() -> bool {
        true
    }

    fn allow_comments() -> (b: bool) {
        true
    }

    fn allow_trailing_commas() -> (b: bool) {
        true
    }
}

/// The grammar's view of a list of entries.
pub open spec fn entries_view(v: Seq<JsonValueIndexEntry>) -> Seq<Entry> {
    v.map_values(|e: JsonValueIndexEntry| e@)
}

/// The grammar's view of a list of comment ranges.
pub open spec fn comments_view(c: Seq<Range<usize>>) -> Seq<(int, int)> {
    c.map_values(|r: Range<usize>| (r.start as int, r.end as int))
}

/// Every entry holds a kind's ordinal.
pub open spec fn entries_wf(v: Seq<JsonValueIndexEntry>) -> bool {
    forall|i: int| 0 <= i < v.len() ==> (#[trigger] v[i]).wf()
}

/// A recursive-descent parser over the bytes of a text.
#[derive(Debug)]
pub struct JsonParser<'a, E> {
    text: &'a [u8],
    pos: usize,
    kind: Option<JsonValueKind>,
    values: Vec<JsonValueIndexEntry>,
    comments: Vec<Range<usize>>,
    depth: usize,
    extensions: PhantomData<E>,
}

impl<'a, E: Extensions> JsonParser<'a, E> {
    pub closed spec fn state(&self) -> PState {
        PState {
            pos: self.pos as int,
            kind: self.kind,
            values: entries_view(self.values@),
            comments: comments_view(self.comments@),
            depth: self.depth as int,
        }
    }

    pub closed spec fn bytes(&self) -> Seq<u8> {
        self.text@
    }

    pub closed spec fn wf(&self) -> bool {
        &&& self.pos <= self.text@.len()
        &&& self.text@.len() <= usize::MAX
        &&& self.values@.len() <= self.pos
        &&& self.depth <= MAX_NESTING_DEPTH
        &&& entries_wf(self.values@)
    }

    /// The parser ended as the grammar says: in state `s`, or with the error `s` gives.
    pub closed spec fn outcome(&self, r: Result<(), JsonParseError>, s: Result<PState, PErr>) -> bool {
        match s {
            Ok(st) => r is Ok && self.state() == st && self.wf(),
            Err(e) => match r {
                Err(x) => error_matches(x, e),
                Ok(_) => false,
            },
        }
    }

    pub fn new(text: &'a [u8]) -> (p: Self)
        ensures
            p.state() == initial_state(),
            p.bytes() == text@,
            p.wf(),
    {
        let _len = text.len();
        let p = Self {
            text,
            pos: 0,
            kind: None,
            values: Vec::new(),
            comments: Vec::new(),
            depth: 0,
            extensions: PhantomData,
        };
        proof {
            assert(entries_view(p.values@) =~= seq![]);
            assert(comments_view(p.comments@) =~= seq![]);
        }
        p
    }

    /// The first position at or after `p` that is not whitespace.
    fn skip_ws(&self, p: usize) -> (q: usize)
        requires
            p <= self.text@.len(),
        ensures
            q == skip_ws(self.text@, p as int),
            p <= q <= self.text@.len(),
    {
        proof {
            lemma_skip_ws(self.text@, p as int);
        }
        let mut q = p;
        while q < self.text.len() && (self.text[q] == 0x20 || self.text[q] == 0x09
            || self.text[q] == 0x0d || self.text[q] == 0x0a)
            invariant
                p <= q <= self.text@.len(),
                skip_ws(self.text@, p as int) == skip_ws(self.text@, q as int),
            decreases self.text@.len() - q,
        {
            q += 1;
        }
        q
    }

    fn line_comment_end(&self, p: usize) -> (q: usize)
        requires
            p <= self.text@.len(),
        ensures
            q == line_comment_end(self.text@, p as int),
            p <= q <= self.text@.len(),
    {
        proof {
            lemma_line_comment_end(self.text@, p as int);
        }
        let mut q = p;
        while q < self.text.len() && self.text[q] != 0x0a
            invariant
                p <= q <= self.text@.len(),
                line_comment_end(self.text@, p as int) == line_comment_end(self.text@, q as int),
            decreases self.text@.len() - q,
        {
            q += 1;
        }
        q
    }

    fn block_comment_end(&self, p: usize) -> (q: Option<usize>)
        requires
            p <= self.text@.len(),
        ensures
            match block_comment_end(self.text@, p as int) {
                Some(e) => q == Some(e as usize) && p + 2 <= e <= self.text@.len(),
                None => q is None,
            },
    {
        proof {
            lemma_block_comment_end(self.text@, p as int);
        }
        let mut q = p;
        while self.text.len() - q > 1
            invariant
                p <= q <= self.text@.len(),
                block_comment_end(self.text@, p as int) == block_comment_end(self.text@, q as int),
            decreases self.text@.len() - q,
        {
            if self.text[q] == 0x2a && self.text[q + 1] == 0x2f {
                return Some(q + 2);
            }
            q += 1;
        }
        None
    }

    /// The error for an unexpected byte at `position` (the end of the text included).
    fn unexpected_value_char(&self, position: usize) -> (e: JsonParseError)
        ensures
            error_matches(e, value_char_error(self.text@, self.kind, position as int)),
    {
        if position == self.text.len() {
            JsonParseError::UnexpectedEos { kind: self.kind, position }
        } else {
            JsonParseError::UnexpectedValueChar { kind: self.kind, position }
        }
    }

    fn unexpected_eos(&self) -> (e: JsonParseError)
        ensures
            error_matches(e, eos_error(self.text@, self.kind)),
    {
        JsonParseError::UnexpectedEos { kind: self.kind, position: self.text.len() }
    }

    /// Skips whitespace and, for JSONC, comments (which are recorded) from `p`.
    fn skip_whitespaces_and_comments(&mut self, p: usize) -> (r: Result<usize, JsonParseError>)
        requires
            p <= old(self).text@.len(),
            old(self).wf(),
        ensures
            final(self).text == old(self).text,
            r is Ok <==> skip_wc(old(self).text@, E::jsonc(), p as int, old(self).state().comments, old(self).kind) is Ok,
            r matches Ok(q) ==> {
                &&& skip_wc(old(self).text@, E::jsonc(), p as int, old(self).state().comments, old(self).kind)
                    == Ok::<(int, Seq<(int, int)>), PErr>((q as int, final(self).state().comments))
                &&& final(self).state() == (PState { comments: final(self).state().comments, ..old(self).state() })
                &&& final(self).wf()
                &&& p <= q <= old(self).text@.len()
            },
            r matches Err(x) ==> skip_wc(old(self).text@, E::jsonc(), p as int, old(self).state().comments, old(self).kind) matches Err(e) && error_matches(x, e),
    {
        let ghost t = old(self).text@;
        let ghost p0 = p as int;
        let ghost c0 = old(self).state().comments;
        let mut cur = p;
        loop
            invariant
                self.text@ == t,
                p0 <= cur <= t.len(),
                self.wf(),
                self.state() == (PState { comments: self.state().comments, ..old(self).state() }),
                skip_wc(t, E::jsonc(), p0, c0, self.kind) == skip_wc(
                    t,
                    E::jsonc(),
                    cur as int,
                    self.state().comments,
                    self.kind,
                ),
                self.text == old(self).text,
                self.kind == old(self).kind,
                t == old(self).text@,
                c0 == old(self).state().comments,
                p0 == p as int,
            decreases t.len() - cur,
        {
            let q = self.skip_ws(cur);
            if !E::allow_comments() {
                return Ok(q);
            }
            if self.text.len() - q > 1 && self.text[q] == 0x2f && self.text[q + 1] == 0x2f {
                let e = self.line_comment_end(q + 2);
                proof {
                    lemma_line_comment_end(t, q + 2);
                }
                let ghost before = self.comments@;
                self.comments.push(Range { start: q, end: e });
                proof {
                    assert(comments_view(self.comments@) =~= comments_view(before).push(
                        (q as int, e as int),
                    ));
                }
                cur = e;
            } else if self.text.len() - q > 1 && self.text[q] == 0x2f && self.text[q + 1] == 0x2a {
                match self.block_comment_end(q + 2) {
                    None => {
                        return Err(self.unexpected_eos());
                    },
                    Some(e) => {
                        let ghost before = self.comments@;
                        self.comments.push(Range { start: q, end: e });
                        proof {
                            assert(comments_view(self.comments@) =~= comments_view(before).push(
                                (q as int, e as int),
                            ));
                        }
                        cur = e;
                    },
                }
            } else {
                return Ok(q);
            }
        }
    }

    /// After a value: further on, at the same depth, with no entry dropped.
    pub closed spec fn progressed(&self, before: Self) -> bool {
        &&& self.pos > before.pos
        &&& self.depth == before.depth
        &&& self.values@.len() >= before.values@.len()
        &&& self.kind is Some
        &&& self.text == before.text
    }

    /// Records a value of `len` bytes at the current position.
    fn push_entry(&mut self, len: usize)
        requires
            old(self).wf(),
            old(self).kind is Some,
            1 <= len,
            old(self).pos + len <= old(self).text@.len(),
        ensures
            final(self).text == old(self).text,
            final(self).state() == push_entry(old(self).state(), len as int),
            final(self).wf(),
            final(self).values@.len() == old(self).values@.len() + 1,
    {
        let position = self.pos;
        let kind = match self.kind {
            Some(k) => k,
            None => JsonValueKind::Null,
        };
        let entry = JsonValueIndexEntry::new(kind, position, position + len, self.values.len() + 1);
        let ghost before = self.values@;
        self.values.push(entry);
        self.pos = position + len;
        proof {
            assert(entries_view(self.values@) =~= entries_view(before).push(entry@));
        }
    }

    /// Closes the container recorded at `index` at the current position.
    fn finish_entry(&mut self, index: usize)
        requires
            old(self).wf(),
            index < old(self).values@.len(),
            old(self).depth >= 1,
        ensures
            final(self).text == old(self).text,
            final(self).state() == finish_entry(old(self).state(), index as int),
            final(self).wf(),
            final(self).values@.len() == old(self).values@.len(),
    {
        let mut entry = self.values[index];
        let end = self.pos;
        let n = self.values.len();
        entry.set_text_end(end);
        entry.set_end_index(n);
        let ghost before = self.values@;
        self.values.set(index, entry);
        self.depth = self.depth - 1;
        proof {
            assert(entries_view(self.values@) =~= entries_view(before).update(index as int, entry@));
        }
    }

    /// `null`, `true` or `false`, whose first byte is at the current position.
    fn parse_literal(&mut self, kind: JsonValueKind, suffix: &[u8]) -> (r: Result<(), JsonParseError>)
        requires
            old(self).wf(),
            old(self).pos < old(self).text@.len(),
            1 <= suffix@.len() <= 4,
        ensures
            final(self).text == old(self).text,
            final(self).outcome(r, parse_literal(old(self).text@, old(self).state(), kind, suffix@)),
            r is Ok ==> final(self).progressed(*old(self)),
    {
        let ghost t = self.text@;
        let ghost st = with_kind(self.state(), kind);
        self.kind = Some(kind);
        let p = self.pos + 1;
        let len = self.text.len();
        let n = suffix.len();
        let mut i: usize = 0;
        while i < n
            invariant
                i <= n,
                n == suffix@.len(),
                1 <= n <= 4,
                p == st.pos + 1,
                p <= len,
                len == t.len(),
                t == self.text@,
                t == old(self).text@,
                self.text == old(self).text,
                self.wf(),
                self.state() == st,
                st == with_kind(old(self).state(), kind),
                forall|j: int| 0 <= j < i ==> p + j < t.len() && #[trigger] t[p + j] == suffix@[j],
                literal_mismatch(t, p as int, suffix@, 0) == literal_mismatch(
                    t,
                    p as int,
                    suffix@,
                    i as int,
                ),
            decreases n - i,
        {
            if len - p <= i {
                return Err(self.unexpected_eos());
            }
            if self.text[p + i] != suffix[i] {
                proof {
                    if p + n <= t.len() {
                        assert(t.subrange(p as int, p + n)[i as int] == t[p + i]);
                    }
                }
                return Err(self.unexpected_value_char(p + i));
            }
            i += 1;
        }
        proof {
            assert(i == n);
            let last = (n - 1) as int;
            assert(0 <= last < i);
            assert(t[p + last] == suffix@[last]);
            assert(p + last < t.len());
            assert forall|j: int| 0 <= j < n implies #[trigger] t.subrange(p as int, p + n)[j] == suffix@[j] by {
                assert(t[p + j] == suffix@[j]);
            }
            assert(t.subrange(p as int, p + n) =~= suffix@);
        }
        self.push_entry(1 + n);
        Ok(())
    }

    /// One or more digits at `q`, reported as a value of the current kind.
    fn strip_one_or_more_digits(&self, q: usize) -> (r: Result<usize, JsonParseError>)
        requires
            q <= self.text@.len(),
            self.wf(),
        ensures
            match digits(self.text@, self.kind, q as int) {
                Ok(e) => r == Ok::<usize, JsonParseError>(e as usize) && q < e <= self.text@.len(),
                Err(e) => match r {
                    Err(x) => error_matches(x, e),
                    Ok(_) => false,
                },
            },
    {
        let rest = slice_subrange(self.text, q, self.text.len());
        let n = skip_ascii_digits(rest);
        proof {
            assert forall|j: int| q <= j < q + n implies is_digit(#[trigger] self.text@[j]) by {
                assert(rest@[j - q] == self.text@[j]);
            }
            if q + n < self.text@.len() {
                assert(rest@[n as int] == self.text@[q + n]);
            }
            lemma_count_digits(self.text@, q as int, n as int);
        }
        if n == 0 {
            Err(self.unexpected_value_char(q))
        } else {
            Ok(q + n)
        }
    }

    /// A number starting at the current position.
    #[verifier::rlimit(40)]
    fn parse_number(&mut self) -> (r: Result<(), JsonParseError>)
        requires
            old(self).wf(),
            old(self).pos < old(self).text@.len(),
        ensures
            final(self).text == old(self).text,
            final(self).outcome(r, parse_number(old(self).text@, old(self).state())),
            r is Ok ==> final(self).progressed(*old(self)),
    {
        let ghost t = self.text@;
        self.kind = Some(JsonValueKind::Integer);
        let p0 = self.pos;
        let len = self.text.len();
        let q0 = if self.text[p0] == 0x2d {
            p0 + 1
        } else {
            p0
        };
        let q1 = if q0 < len && self.text[q0] == 0x30 {
            q0 + 1
        } else {
            self.strip_one_or_more_digits(q0)?
        };
        let frac = q1 < len && self.text[q1] == 0x2e;
        let q2 = if frac {
            self.kind = Some(JsonValueKind::Float);
            self.strip_one_or_more_digits(q1 + 1)?
        } else {
            q1
        };
        let exp = q2 < len && (self.text[q2] == 0x65 || self.text[q2] == 0x45);
        let q4 = if exp {
            self.kind = Some(JsonValueKind::Float);
            let q3 = if len - q2 > 1 && (self.text[q2 + 1] == 0x2d || self.text[q2 + 1] == 0x2b) {
                q2 + 2
            } else {
                q2 + 1
            };
            self.strip_one_or_more_digits(q3)?
        } else {
            q2
        };
        self.push_entry(q4 - p0);
        Ok(())
    }

    fn decode_hex_char(&self, h: usize) -> (r: Option<u32>)
        requires
            h + 4 <= self.text@.len(),
        ensures
            r matches Some(v) ==> hex4(self.text@, h as int) == Some(v as int),
            r is None ==> hex4(self.text@, h as int) is None,
    {
        hex4_at(self.text, h)
    }

    fn set_last_escaped(&mut self, escaped: bool)
        requires
            old(self).wf(),
            old(self).values@.len() > 0,
        ensures
            final(self).text == old(self).text,
            final(self).state() == set_last_escaped(old(self).state(), escaped),
            final(self).wf(),
            final(self).values@.len() == old(self).values@.len(),
    {
        let last = self.values.len() - 1;
        let mut entry = self.values[last];
        entry.set_escaped(escaped);
        let ghost before = self.values@;
        self.values.set(last, entry);
        proof {
            assert(entries_view(self.values@) =~= entries_view(before).update(last as int, entry@));
        }
    }

    /// A string whose opening quote is at the current position.
    fn parse_string(&mut self) -> (r: Result<(), JsonParseError>)
        requires
            old(self).wf(),
            old(self).pos < old(self).text@.len(),
        ensures
            final(self).text == old(self).text,
            final(self).outcome(r, parse_string(old(self).text@, old(self).state())),
            r is Ok ==> final(self).progressed(*old(self)),
    {
        let ghost t = self.text@;
        self.kind = Some(JsonValueKind::String);
        let ghost st = self.state();
        let start = self.pos;
        let len = self.text.len();
        let mut q = start + 1;
        let mut escaped = false;
        loop
            invariant
                start < q <= len,
                len == t.len(),
                t == self.text@,
                self.text == old(self).text,
                self.state() == st,
                st == with_kind(old(self).state(), JsonValueKind::String),
                start == st.pos,
                self.wf(),
                scan_string(t, st, st.pos + 1, false) == scan_string(t, st, q as int, escaped),
            decreases len - q,
        {
            let n1 = skip_plain_ascii_bytes(slice_subrange(self.text, q, len));
            proof {
                let rest = t.subrange(q as int, len as int);
                assert forall|j: int| q <= j < q + n1 implies is_plain_string_byte(#[trigger] t[j]) by {
                    assert(rest[j - q] == t[j]);
                    assert(is_plain_ascii(rest[j - q]));
                }
                lemma_scan_skip(t, st, q as int, n1 as int, escaped);
            }
            q = q + n1;
            let n2 = skip_non_ascii_bytes(slice_subrange(self.text, q, len));
            proof {
                let rest = t.subrange(q as int, len as int);
                assert forall|j: int| q <= j < q + n2 implies is_plain_string_byte(#[trigger] t[j]) by {
                    assert(rest[j - q] == t[j]);
                }
                lemma_scan_skip(t, st, q as int, n2 as int, escaped);
            }
            if n2 > 0 {
                q = q + n2;
                continue;
            }
            if q >= len {
                return Err(self.unexpected_eos());
            }
            let b = self.text[q];
            if b == 0x22 {
                self.push_entry(q + 1 - start);
                self.set_last_escaped(escaped);
                return Ok(());
            } else if b == 0x5c {
                let r = q + 1;
                if r < len && (self.text[r] == 0x22 || self.text[r] == 0x5c || self.text[r] == 0x2f
                    || self.text[r] == 0x6e || self.text[r] == 0x74 || self.text[r] == 0x72
                    || self.text[r] == 0x62 || self.text[r] == 0x66) {
                    q = r + 1;
                    escaped = true;
                } else if !(r < len && self.text[r] == 0x75) {
                    return Err(self.unexpected_value_char(r));
                } else {
                    let h = r + 1;
                    if len - h < 4 {
                        return Err(self.unexpected_eos());
                    }
                    match self.decode_hex_char(h) {
                        None => {
                            return Err(self.unexpected_value_char(h));
                        },
                        Some(code) => {
                            if 0xd800 <= code && code <= 0xdbff {
                                let p = h + 4;
                                if !(len - p > 1 && self.text[p] == 0x5c && self.text[p + 1] == 0x75) {
                                    return Err(self.unexpected_value_char(p));
                                }
                                let h2 = p + 2;
                                if len - h2 < 4 {
                                    return Err(self.unexpected_eos());
                                }
                                match self.decode_hex_char(h2) {
                                    Some(low) => {
                                        if 0xdc00 <= low && low <= 0xdfff {
                                            q = h2 + 4;
                                            escaped = true;
                                        } else {
                                            return Err(self.unexpected_value_char(h2));
                                        }
                                    },
                                    None => {
                                        return Err(self.unexpected_value_char(h2));
                                    },
                                }
                            } else if 0xdc00 <= code && code <= 0xdfff {
                                return Err(self.unexpected_value_char(h));
                            } else {
                                q = h + 4;
                                escaped = true;
                            }
                        },
                    }
                }
            } else {
                return Err(self.unexpected_value_char(q));
            }
        }
    }

    /// A value, after optional whitespace and comments.
    fn parse_value(&mut self) -> (r: Result<(), JsonParseError>)
        requires
            old(self).wf(),
        ensures
            final(self).text == old(self).text,
            final(self).outcome(r, parse_value(old(self).text@, E::jsonc(), old(self).state())),
            r is Ok ==> final(self).progressed(*old(self)),
        decreases old(self).text@.len() - old(self).pos, 2int,
    {
        let p = self.skip_whitespaces_and_comments(self.pos)?;
        if p >= self.text.len() {
            return Err(self.unexpected_eos());
        }
        self.pos = p;
        let b = self.text[p];
        if b == 0x6e {
            let suffix: [u8; 3] = [0x75, 0x6c, 0x6c];
            proof {
                assert(suffix@ =~= seq![0x75u8, 0x6cu8, 0x6cu8]);
            }
            self.parse_literal(JsonValueKind::Null, &suffix)
        } else if b == 0x74 {
            let suffix: [u8; 3] = [0x72, 0x75, 0x65];
            proof {
                assert(suffix@ =~= seq![0x72u8, 0x75u8, 0x65u8]);
            }
            self.parse_literal(JsonValueKind::Boolean, &suffix)
        } else if b == 0x66 {
            let suffix: [u8; 4] = [0x61, 0x6c, 0x73, 0x65];
            proof {
                assert(suffix@ =~= seq![0x61u8, 0x6cu8, 0x73u8, 0x65u8]);
            }
            self.parse_literal(JsonValueKind::Boolean, &suffix)
        } else if b == 0x22 {
            self.parse_string()
        } else if b == 0x5b {
            self.parse_array()
        } else if b == 0x7b {
            self.parse_object()
        } else if (0x30 <= b && b <= 0x39) || b == 0x2d {
            self.parse_number()
        } else {
            Err(self.unexpected_value_char(p))
        }
    }

    /// The next element of the array recorded at `index`, and what follows it: `true`
    /// once the array is closed.
    fn array_step(&mut self, index: usize) -> (r: Result<bool, JsonParseError>)
        requires
            old(self).wf(),
            index < old(self).values@.len(),
            old(self).depth >= 1,
        ensures
            final(self).text == old(self).text,
            r matches Ok(true) ==> {
                &&& array_items(old(self).text@, E::jsonc(), old(self).state(), index as int)
                    == Ok::<PState, PErr>(final(self).state())
                &&& final(self).wf()
                &&& final(self).pos > old(self).pos
                &&& final(self).depth == old(self).depth - 1
                &&& final(self).values@.len() >= old(self).values@.len()
                &&& final(self).kind is Some
            },
            r matches Ok(false) ==> {
                &&& array_items(old(self).text@, E::jsonc(), old(self).state(), index as int)
                    == array_items(old(self).text@, E::jsonc(), final(self).state(), index as int)
                &&& final(self).wf()
                &&& final(self).pos > old(self).pos
                &&& final(self).depth == old(self).depth
                &&& final(self).values@.len() >= old(self).values@.len()
            },
            r matches Err(x) ==> array_items(old(self).text@, E::jsonc(), old(self).state(), index as int)
                matches Err(e) && error_matches(x, e),
        decreases old(self).text@.len() - old(self).pos, 3int,
    {
        let ghost t = self.text@;
        let ghost c = E::jsonc();
        let ghost st = self.state();
        let len = self.text.len();
        self.parse_value()?;
        self.kind = Some(JsonValueKind::Array);
        let ghost s2 = self.state();
        assert(s2 == with_kind(parse_value(t, c, st)->Ok_0, JsonValueKind::Array));
        let p = self.skip_whitespaces_and_comments(self.pos)?;
        let ghost s3 = PState { pos: p as int, ..self.state() };
        if p < len && self.text[p] == 0x5d {
            self.pos = p + 1;
            self.finish_entry(index);
            return Ok(true);
        }
        if !(p < len && self.text[p] == 0x2c) {
            return Err(self.unexpected_value_char(p));
        }
        if E::allow_trailing_commas() {
            let p2 = self.skip_whitespaces_and_comments(p + 1)?;
            self.pos = p2;
            if p2 < len && self.text[p2] == 0x5d {
                self.pos = p2 + 1;
                self.finish_entry(index);
                return Ok(true);
            }
        } else {
            self.pos = p + 1;
        }
        Ok(false)
    }

    /// An array whose `[` is at the current position.
    fn parse_array(&mut self) -> (r: Result<(), JsonParseError>)
        requires
            old(self).wf(),
            old(self).pos < old(self).text@.len(),
        ensures
            final(self).text == old(self).text,
            final(self).outcome(r, parse_array(old(self).text@, E::jsonc(), old(self).state())),
            r is Ok ==> final(self).progressed(*old(self)),
        decreases old(self).text@.len() - old(self).pos, 1int,
    {
        if self.depth >= MAX_NESTING_DEPTH {
            return Err(too_deep(JsonValueKind::Array, self.pos));
        }
        let ghost t = self.text@;
        let ghost c = E::jsonc();
        let len = self.text.len();
        self.kind = Some(JsonValueKind::Array);
        self.depth = self.depth + 1;
        let s = self.skip_whitespaces_and_comments(self.pos + 1)?;
        if s < len && self.text[s] == 0x5d {
            self.push_entry(s + 1 - self.pos);
            self.depth = self.depth - 1;
            return Ok(());
        }
        let index = self.values.len();
        self.push_entry(s - self.pos);
        loop
            invariant
                self.wf(),
                t == self.text@,
                t == old(self).text@,
                c == E::jsonc(),
                len == t.len(),
                self.text == old(self).text,
                index < self.values@.len(),
                self.values@.len() >= old(self).values@.len(),
                self.depth == old(self).depth + 1,
                self.pos > old(self).pos,
                parse_array(t, c, old(self).state()) == array_items(t, c, self.state(), index as int),
            decreases len - self.pos,
        {
            if self.array_step(index)? {
                return Ok(());
            }
        }
    }

    /// The next member of the object recorded at `index`, and what follows it: `true`
    /// once the object is closed.
    fn object_step(&mut self, index: usize) -> (r: Result<bool, JsonParseError>)
        requires
            old(self).wf(),
            index < old(self).values@.len(),
            old(self).depth >= 1,
        ensures
            final(self).text == old(self).text,
            r matches Ok(true) ==> {
                &&& object_members(old(self).text@, E::jsonc(), old(self).state(), index as int)
                    == Ok::<PState, PErr>(final(self).state())
                &&& final(self).wf()
                &&& final(self).pos > old(self).pos
                &&& final(self).depth == old(self).depth - 1
                &&& final(self).values@.len() >= old(self).values@.len()
                &&& final(self).kind is Some
            },
            r matches Ok(false) ==> {
                &&& object_members(old(self).text@, E::jsonc(), old(self).state(), index as int)
                    == object_members(old(self).text@, E::jsonc(), final(self).state(), index as int)
                &&& final(self).wf()
                &&& final(self).pos > old(self).pos
                &&& final(self).depth == old(self).depth
                &&& final(self).values@.len() >= old(self).values@.len()
            },
            r matches Err(x) ==> object_members(old(self).text@, E::jsonc(), old(self).state(), index as int)
                matches Err(e) && error_matches(x, e),
        decreases old(self).text@.len() - old(self).pos, 3int,
    {
        let len = self.text.len();
        // Key.
        if !(self.pos < len && self.text[self.pos] == 0x22) {
            return Err(self.unexpected_value_char(self.pos));
        }
        self.parse_string()?;
        self.kind = Some(JsonValueKind::Object);
        // Value.
        let p = self.skip_whitespaces_and_comments(self.pos)?;
        if !(p < len && self.text[p] == 0x3a) {
            return Err(self.unexpected_value_char(p));
        }
        self.pos = p + 1;
        self.parse_value()?;
        self.kind = Some(JsonValueKind::Object);
        let q = self.skip_whitespaces_and_comments(self.pos)?;
        if q < len && self.text[q] == 0x7d {
            self.pos = q + 1;
            self.finish_entry(index);
            return Ok(true);
        }
        if !(q < len && self.text[q] == 0x2c) {
            return Err(self.unexpected_value_char(q));
        }
        let r = self.skip_whitespaces_and_comments(q + 1)?;
        self.pos = r;
        if E::allow_trailing_commas() && r < len && self.text[r] == 0x7d {
            self.pos = r + 1;
            self.finish_entry(index);
            return Ok(true);
        }
        Ok(false)
    }

    /// An object whose `{` is at the current position.
    fn parse_object(&mut self) -> (r: Result<(), JsonParseError>)
        requires
            old(self).wf(),
            old(self).pos < old(self).text@.len(),
        ensures
            final(self).text == old(self).text,
            final(self).outcome(r, parse_object(old(self).text@, E::jsonc(), old(self).state())),
            r is Ok ==> final(self).progressed(*old(self)),
        decreases old(self).text@.len() - old(self).pos, 1int,
    {
        if self.depth >= MAX_NESTING_DEPTH {
            return Err(too_deep(JsonValueKind::Object, self.pos));
        }
        let ghost t = self.text@;
        let ghost c = E::jsonc();
        let len = self.text.len();
        self.kind = Some(JsonValueKind::Object);
        self.depth = self.depth + 1;
        let s = self.skip_whitespaces_and_comments(self.pos + 1)?;
        if s < len && self.text[s] == 0x7d {
            self.push_entry(s + 1 - self.pos);
            self.depth = self.depth - 1;
            return Ok(());
        }
        let index = self.values.len();
        self.push_entry(s - self.pos);
        loop
            invariant
                self.wf(),
                t == self.text@,
                t == old(self).text@,
                c == E::jsonc(),
                len == t.len(),
                self.text == old(self).text,
                index < self.values@.len(),
                self.values@.len() >= old(self).values@.len(),
                self.depth == old(self).depth + 1,
                self.pos > old(self).pos,
                parse_object(t, c, old(self).state()) == object_members(t, c, self.state(), index as int),
            decreases len - self.pos,
        {
            if self.object_step(index)? {
                return Ok(());
            }
        }
    }

    /// Parses the whole text: one value, then only whitespace (and comments).
    pub fn parse(self) -> (r: Result<(Vec<JsonValueIndexEntry>, Vec<Range<usize>>), JsonParseError>)
        requires
            self.wf(),
            self.state() == initial_state(),
        ensures
            match parse_text(self.bytes(), E::jsonc()) {
                Ok((vals, cms)) => match r {
                    Ok((v, c)) => entries_view(v@) == vals && comments_view(c@) == cms
                        && entries_wf(v@),
                    Err(_) => false,
                },
                Err(e) => match r {
                    Err(x) => error_matches(x, e),
                    Ok(_) => false,
                },
            },
    {
        let mut p = self;
        p.parse_value()?;
        let q = p.skip_whitespaces_and_comments(p.pos)?;
        if q < p.text.len() {
            let kind = match p.kind {
                Some(k) => k,
                None => JsonValueKind::Null,
            };
            return Err(JsonParseError::UnexpectedTrailingChar { kind, position: q });
        }
        Ok((p.values, p.comments))
    }
}

/// The value of one hex digit.
fn decode_hex_nibble(byte: u8) -> (r: Option<u32>)
    ensures
        r matches Some(v) ==> is_hex_digit(byte) && v == hex_value(byte),
        r is None ==> !is_hex_digit(byte),
{
    if 0x30 <= byte && byte <= 0x39 {
        Some((byte - 0x30) as u32)
    } else if 0x61 <= byte && byte <= 0x66 {
        Some((byte - 0x61 + 10) as u32)
    } else if 0x41 <= byte && byte <= 0x46 {
        Some((byte - 0x41 + 10) as u32)
    } else {
        None
    }
}

/// The value of the four hex digits at `h`, if they are hex digits.
pub(crate) fn hex4_at(t: &[u8], h: usize) -> (r: Option<u32>)
    requires
        h + 4 <= t@.len(),
    ensures
        r matches Some(v) ==> hex4(t@, h as int) == Some(v as int),
        r is None ==> hex4(t@, h as int) is None,
{
    let a = decode_hex_nibble(t[h])?;
    let b = decode_hex_nibble(t[h + 1])?;
    let c = decode_hex_nibble(t[h + 2])?;
    let d = decode_hex_nibble(t[h + 3])?;
    Some(a * 4096 + b * 256 + c * 16 + d)
}

} // verus!
