//! Compact storage for parsed JSON value entries: the kind and the escaped flag share
//! one byte.
use vstd::prelude::*;
use crate::grammar::Entry;
use crate::kind::JsonValueKind;

verus! {

/// The ordinal that `kind_to_byte` gives a kind.
pub open spec fn kind_code(kind: JsonValueKind) -> u8 {
    match kind {
        JsonValueKind::Null => 0,
        JsonValueKind::Boolean => 1,
        JsonValueKind::Integer => 2,
        JsonValueKind::Float => 3,
        JsonValueKind::String => 4,
        JsonValueKind::Array => 5,
        JsonValueKind::Object => 6,
    }
}

/// The kind whose ordinal is `byte` (below 7).
pub open spec fn kind_of_code(byte: u8) -> JsonValueKind {
    if byte == 0 {
        JsonValueKind::Null
    } else if byte == 1 {
        JsonValueKind::Boolean
    } else if byte == 2 {
        JsonValueKind::Integer
    } else if byte == 3 {
        JsonValueKind::Float
    } else if byte == 4 {
        JsonValueKind::String
    } else if byte == 5 {
        JsonValueKind::Array
    } else {
        JsonValueKind::Object
    }
}

/// Decoding a kind's ordinal gives the kind back.
pub proof fn lemma_kind_code_roundtrip(kind: JsonValueKind)
    ensures
        kind_code(kind) < 7,
        kind_of_code(kind_code(kind)) == kind,
{
}

/// The ordinal of a kind, stored in the low seven bits of an entry's packed byte.
pub fn kind_to_byte(kind: JsonValueKind) -> (b: u8)
    ensures
        b == kind_code(kind),
{
    match kind {
        JsonValueKind::Null => 0,
        JsonValueKind::Boolean => 1,
        JsonValueKind::Integer => 2,
        JsonValueKind::Float => 3,
        JsonValueKind::String => 4,
        JsonValueKind::Array => 5,
        JsonValueKind::Object => 6,
    }
}

/// The kind whose ordinal is `byte`.
pub fn byte_to_kind(byte: u8) -> (kind: JsonValueKind)
    requires
        byte < 7,
    ensures
        kind == kind_of_code(byte),
        kind_code(kind) == byte,
{
    match byte {
        0 => JsonValueKind::Null,
        1 => JsonValueKind::Boolean,
        2 => JsonValueKind::Integer,
        3 => JsonValueKind::Float,
        4 => JsonValueKind::String,
        5 => JsonValueKind::Array,
        _ => JsonValueKind::Object,
    }
}

/// One parsed JSON value slot: its byte range `[text_start, text_end)`, the slot one
/// past its last descendant (for a scalar, its own index plus one), and a byte whose
/// bit 7 is the escaped flag and whose bits 0 to 6 are the kind's ordinal.
#[derive(Debug, Clone, Copy, PartialEq, Eq, Structural)]
pub struct JsonValueIndexEntry {
    pub text_start: usize,
    pub text_end: usize,
    pub end_index: usize,
    pub packed: u8,
}

impl JsonValueIndexEntry {
    /// Well-formed: the packed byte holds a kind's ordinal.
    pub open spec fn wf(&self) -> bool {
        self.packed % 128 < 7
    }

    pub open spec fn view(&self) -> Entry {
        Entry {
            kind: kind_of_code(self.packed % 128),
            escaped: self.packed >= 128,
            start: self.text_start as int,
            end: self.text_end as int,
            end_index: self.end_index as int,
        }
    }

    /// A new entry, not escaped.
    pub fn new(kind: JsonValueKind, start: usize, end: usize, end_index: usize) -> (e: Self)
        ensures
            e.wf(),
            e@ == (Entry {
                kind,
                escaped: false,
                start: start as int,
                end: end as int,
                end_index: end_index as int,
            }),
    {
        let packed = kind_to_byte(kind);
        Self { text_start: start, text_end: end, end_index, packed }
    }

    /// The kind of the value.
    pub fn kind(&self) -> (k: JsonValueKind)
        requires
            self.wf(),
        ensures
            k == self@.kind,
    {
        let p = self.packed;
        proof {
            assert(p & 0x7f == p % 128) by (bit_vector);
        }
        byte_to_kind(p & 0x7f)
    }

    /// Whether the value is a string that holds escapes.
    pub fn escaped(&self) -> (b: bool)
        ensures
            b == self@.escaped,
    {
        let p = self.packed;
        proof {
            assert(p & 0x80 != 0 <==> p >= 128) by (bit_vector);
        }
        p & 0x80 != 0
    }

    pub fn text_start(&self) -> (n: usize)
        ensures
            n == self@.start,
    {
        self.text_start
    }

    pub fn text_end(&self) -> (n: usize)
        ensures
            n == self@.end,
    {
        self.text_end
    }

    pub fn end_index(&self) -> (n: usize)
        ensures
            n == self@.end_index,
    {
        self.end_index
    }

    pub fn set_text_end(&mut self, end: usize)
        ensures
            final(self)@ == (Entry { end: end as int, ..old(self)@ }),
            final(self).wf() == old(self).wf(),
    {
        self.text_end = end;
    }

    pub fn set_end_index(&mut self, end_index: usize)
        ensures
            final(self)@ == (Entry { end_index: end_index as int, ..old(self)@ }),
            final(self).wf() == old(self).wf(),
    {
        self.end_index = end_index;
    }

    pub fn set_escaped(&mut self, escaped: bool)
        ensures
            final(self)@ == (Entry { escaped, ..old(self)@ }),
            final(self).wf() == old(self).wf(),
    {
        let p = self.packed;
        let q = (p & 0x7f) | if escaped { 0x80u8 } else { 0u8 };
        proof {
            assert((p & 0x7f) | 0x80u8 == p % 128 + 128 && (p & 0x7f) | 0u8 == p % 128)
                by (bit_vector);
        }
        self.packed = q;
    }

    /// The entry moved `text_offset` bytes and `index_offset` slots to the front.
    pub fn shifted(&self, text_offset: usize, index_offset: usize) -> (e: Self)
        requires
            text_offset <= self@.start <= self@.end,
            index_offset <= self@.end_index,
    ensures
            e.wf() == self.wf(),
            e@ == (Entry {
                start: self@.start - text_offset,
                end: self@.end - text_offset,
                end_index: self@.end_index - index_offset,
                ..self@
            }),
    {
        Self {
            text_start: self.text_start - text_offset,
            text_end: self.text_end - text_offset,
            end_index: self.end_index - index_offset,
            packed: self.packed,
        }
    }
}

} // verus!
