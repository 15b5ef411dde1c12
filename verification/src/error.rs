//! The error of a rejected JSON text, or of a value that a conversion refused.
use vstd::prelude::*;
use crate::grammar::PErr;
use crate::kind::{JsonValueKind, kind_name};
use crate::strings::{decimal, string_push_str, write_decimal};
use crate::slices::{ascii_edge, lemma_ascii_edge_boundary, lemma_str_valid, str_slice};
use vstd::string::StringSliceAdditionalSpecFns;
use vstd::utf8::{is_char_boundary, is_continuation_byte};

verus! {

/// JSON parse error.
///
/// Each variant gives the byte position in the input text where the error occurred.
#[derive(Debug)]
pub enum JsonParseError {
    /// The end of the text was reached while a value was being parsed.
    UnexpectedEos {
        /// Kind of the value being parsed, if any.
        kind: Option<JsonValueKind>,
        /// Byte position of the end of the text.
        position: usize,
    },
    /// Non-whitespace characters follow a complete value.
    UnexpectedTrailingChar {
        /// Kind of the value that was parsed.
        kind: JsonValueKind,
        /// Byte position where the trailing characters begin.
        position: usize,
    },
    /// A character that the syntax does not allow at this point.
    UnexpectedValueChar {
        /// Kind of the value being parsed, if any.
        kind: Option<JsonValueKind>,
        /// Byte position of the character.
        position: usize,
    },
    /// A value that is syntactically correct but that a rule refuses.
    InvalidValue {
        /// Kind of the value.
        kind: JsonValueKind,
        /// Byte position where the value starts.
        position: usize,
        /// Why the value is invalid.
        error: String,
    },
}

/// The reason given when the nesting of arrays and objects is too deep.
pub open spec fn depth_message() -> Seq<char> {
    "nesting depth exceeded the maximum (128)"@
}

/// `e` is the error that the grammar gives as `pe`.
pub open spec fn error_matches(e: JsonParseError, pe: PErr) -> bool {
    match pe {
        PErr::Eos { kind, position } => e == JsonParseError::UnexpectedEos {
            kind,
            position: position as usize,
        } && position == position as usize,
        PErr::ValueChar { kind, position } => e == JsonParseError::UnexpectedValueChar {
            kind,
            position: position as usize,
        } && position == position as usize,
        PErr::Trailing { kind, position } => e == JsonParseError::UnexpectedTrailingChar {
            kind,
            position: position as usize,
        } && position == position as usize,
        PErr::TooDeep { kind, position } => match e {
            JsonParseError::InvalidValue { kind: k, position: p, error } => k == kind && p
                == position && error@ == depth_message(),
            _ => false,
        },
        PErr::Stuck => false,
    }
}

impl JsonParseError {
    /// The kind of value that the error is about.
    pub open spec fn spec_kind(&self) -> Option<JsonValueKind> {
        match self {
            JsonParseError::UnexpectedEos { kind, .. } => *kind,
            JsonParseError::UnexpectedTrailingChar { kind, .. } => Some(*kind),
            JsonParseError::UnexpectedValueChar { kind, .. } => *kind,
            JsonParseError::InvalidValue { kind, .. } => Some(*kind),
        }
    }

    /// The byte position of the error.
    pub open spec fn spec_position(&self) -> usize {
        match self {
            JsonParseError::UnexpectedEos { position, .. } => *position,
            JsonParseError::UnexpectedTrailingChar { position, .. } => *position,
            JsonParseError::UnexpectedValueChar { position, .. } => *position,
            JsonParseError::InvalidValue { position, .. } => *position,
        }
    }

    /// Returns the kind of JSON value associated with the error.
    pub fn kind(&self) -> (k: Option<JsonValueKind>)
        ensures
            k == self.spec_kind(),
    {
        match self {
            JsonParseError::UnexpectedEos { kind, .. } => *kind,
            JsonParseError::UnexpectedTrailingChar { kind, .. } => Some(*kind),
            JsonParseError::UnexpectedValueChar { kind, .. } => *kind,
            JsonParseError::InvalidValue { kind, .. } => Some(*kind),
        }
    }

    /// Returns the byte position in the input text where the error occurred.
    pub fn position(&self) -> (p: usize)
        ensures
            p == self.spec_position(),
    {
        match self {
            JsonParseError::UnexpectedEos { position, .. } => *position,
            JsonParseError::UnexpectedTrailingChar { position, .. } => *position,
            JsonParseError::UnexpectedValueChar { position, .. } => *position,
            JsonParseError::InvalidValue { position, .. } => *position,
        }
    }
}

/// The error for the nesting depth limit, at the container that crosses it.
pub fn too_deep(kind: JsonValueKind, position: usize) -> (e: JsonParseError)
    ensures
        error_matches(e, PErr::TooDeep { kind, position: position as int }),
{
    let error = "nesting depth exceeded the maximum (128)".to_owned();
    proof {
        reveal_strlit("nesting depth exceeded the maximum (128)");
    }
    JsonParseError::InvalidValue { kind, position, error }
}

/// The message of `e`, as its `Display` output reads.
pub open spec fn message(e: JsonParseError) -> Seq<char> {
    match e {
        JsonParseError::UnexpectedEos { kind, position } => match kind {
            Some(k) => "unexpected EOS while parsing "@ + kind_name(k) + " at byte position "@
                + decimal(position as nat),
            None => "unexpected EOS at byte position "@ + decimal(position as nat),
        },
        JsonParseError::UnexpectedTrailingChar { kind, position } =>
            "unexpected trailing char after parsing "@ + kind_name(kind) + " at byte position "@
            + decimal(position as nat),
        JsonParseError::UnexpectedValueChar { kind, position } => match kind {
            Some(k) => "unexpected char while parsing "@ + kind_name(k) + " at byte position "@
                + decimal(position as nat),
            None => "unexpected char at byte position "@ + decimal(position as nat),
        },
        JsonParseError::InvalidValue { kind, position, error } => "JSON "@ + kind_name(kind)
            + " at byte position "@ + decimal(position as nat) + " is invalid: "@ + error@,
    }
}

impl JsonParseError {
    /// The message of this error, as its `Display` output reads.
    pub fn to_string(&self) -> (s: String)
        ensures
            s@ == message(*self),
    {
        let mut s = String::new();
        match self {
            JsonParseError::UnexpectedEos { kind, position } => match kind {
                Some(k) => {
                    string_push_str(&mut s, "unexpected EOS while parsing ");
                    string_push_str(&mut s, k.debug_name());
                    string_push_str(&mut s, " at byte position ");
                    write_decimal(&mut s, *position as u128);
                },
                None => {
                    string_push_str(&mut s, "unexpected EOS at byte position ");
                    write_decimal(&mut s, *position as u128);
                },
            },
            JsonParseError::UnexpectedTrailingChar { kind, position } => {
                string_push_str(&mut s, "unexpected trailing char after parsing ");
                string_push_str(&mut s, kind.debug_name());
                string_push_str(&mut s, " at byte position ");
                write_decimal(&mut s, *position as u128);
            },
            JsonParseError::UnexpectedValueChar { kind, position } => match kind {
                Some(k) => {
                    string_push_str(&mut s, "unexpected char while parsing ");
                    string_push_str(&mut s, k.debug_name());
                    string_push_str(&mut s, " at byte position ");
                    write_decimal(&mut s, *position as u128);
                },
                None => {
                    string_push_str(&mut s, "unexpected char at byte position ");
                    write_decimal(&mut s, *position as u128);
                },
            },
            JsonParseError::InvalidValue { kind, position, error } => {
                string_push_str(&mut s, "JSON ");
                string_push_str(&mut s, kind.debug_name());
                string_push_str(&mut s, " at byte position ");
                write_decimal(&mut s, *position as u128);
                string_push_str(&mut s, " is invalid: ");
                string_push_str(&mut s, error.as_str());
            },
        }
        proof {
            assert(s@ =~= message(*self));
        }
        s
    }
}

/// The start of the line holding byte `p` of `t`: just after the last line feed
/// before `p`, or 0.
pub open spec fn line_start(t: Seq<u8>, p: int) -> int
    decreases p,
{
    if p <= 0 {
        0
    } else if t[p - 1] == 0x0a {
        p
    } else {
        line_start(t, p - 1)
    }
}

/// The end of the line holding byte `p` of `t`: the next line feed at or after `p`,
/// or the end of `t`.
pub open spec fn line_end(t: Seq<u8>, p: int) -> int
    decreases t.len() - p,
{
    if p >= t.len() {
        t.len() as int
    } else if t[p] == 0x0a {
        p
    } else {
        line_end(t, p + 1)
    }
}

/// The number of line feeds before byte `p` of `t`.
pub open spec fn lines_before(t: Seq<u8>, p: int) -> nat
    decreases p,
{
    if p <= 0 {
        0
    } else {
        lines_before(t, p - 1) + (if t[p - 1] == 0x0a {
            1nat
        } else {
            0nat
        })
    }
}

/// The number of characters between the last line feed before byte `p` of `t` and
/// `p` (UTF-8 continuation bytes do not start a character).
pub open spec fn column_before(t: Seq<u8>, p: int) -> nat
    decreases p,
{
    if p <= 0 {
        0
    } else if t[p - 1] == 0x0a {
        0
    } else if is_continuation_byte(t[p - 1]) {
        column_before(t, p - 1)
    } else {
        column_before(t, p - 1) + 1
    }
}

/// `n + 1`, or `usize::MAX` when it does not fit.
pub open spec fn one_based(n: nat) -> usize {
    if n + 1 <= usize::MAX {
        (n + 1) as usize
    } else {
        usize::MAX
    }
}

impl JsonParseError {
    /// Returns the line and column numbers (counting from one) of the error position
    /// in `text`; the column counts characters. `None` when the position lies beyond
    /// the text or inside a character.
    pub fn get_line_and_column_numbers(&self, text: &str) -> (r: Option<(usize, usize)>)
        ensures
            r is None <==> !is_char_boundary(text.spec_bytes(), self.spec_position() as int),
            r matches Some((l, c)) ==> l == one_based(
                lines_before(text.spec_bytes(), self.spec_position() as int),
            ) && c == one_based(column_before(text.spec_bytes(), self.spec_position() as int)),
    {
        let position = self.position();
        let bytes = text.as_bytes();
        let len = bytes.len();
        proof {
            lemma_str_valid(text);
            vstd::utf8::is_char_boundary_start_end_of_seq(bytes@);
        }
        if position > len {
            return None;
        }
        if position < len && !text.is_char_boundary(position) {
            return None;
        }
        let mut line: usize = 0;
        let mut column: usize = 0;
        let mut i: usize = 0;
        while i < position
            invariant
                i <= position <= len,
                len == bytes@.len(),
                line == lines_before(bytes@, i as int),
                column == column_before(bytes@, i as int),
                line <= i,
                column <= i,
            decreases position - i,
        {
            let b = bytes[i];
            if b == 0x0a {
                line = line + 1;
                column = 0;
            } else if 0x80 <= b && b <= 0xbf {
            } else {
                column = column + 1;
            }
            i = i + 1;
        }
        Some((line.saturating_add(1), column.saturating_add(1)))
    }

    /// Returns the line of `text` that holds the error position, without its line
    /// feed. `None` when the position is not a character boundary of `text`.
    pub fn get_line<'a>(&self, text: &'a str) -> (r: Option<&'a str>)
        ensures
            r is None <==> !is_char_boundary(text.spec_bytes(), self.spec_position() as int),
            r matches Some(line) ==> line.spec_bytes() == text.spec_bytes().subrange(
                line_start(text.spec_bytes(), self.spec_position() as int),
                line_end(text.spec_bytes(), self.spec_position() as int),
            ),
    {
        let position = self.position();
        if !text.is_char_boundary(position) {
            return None;
        }
        let bytes = text.as_bytes();
        let len = bytes.len();
        proof {
            lemma_str_valid(text);
        }
        let mut start = position;
        while start > 0 && bytes[start - 1] != 0x0a
            invariant
                start <= position <= len,
                len == bytes@.len(),
                line_start(bytes@, start as int) == line_start(bytes@, position as int),
            decreases start,
        {
            start = start - 1;
        }
        let mut end = position;
        while end < len && bytes[end] != 0x0a
            invariant
                position <= end <= len,
                len == bytes@.len(),
                line_end(bytes@, end as int) == line_end(bytes@, position as int),
            decreases len - end,
        {
            end = end + 1;
        }
        proof {
            assert(ascii_edge(bytes@, start as int));
            assert(ascii_edge(bytes@, end as int));
            lemma_ascii_edge_boundary(bytes@, start as int);
            lemma_ascii_edge_boundary(bytes@, end as int);
        }
        Some(str_slice(text, start, end))
    }
}

} // verus!
