use vstd::prelude::*;

verus! {

/// The possible types of JSON values.
#[derive(Debug, Clone, Copy, PartialEq, Eq, Structural, PartialOrd, Ord, Hash)]
pub enum JsonValueKind {
    /// `null`.
    Null,
    /// `true` or `false`.
    Boolean,
    /// Integer number.
    Integer,
    /// Floating-point number.
    Float,
    /// String.
    String,
    /// Array.
    Array,
    /// Object.
    Object,
}

/// The name of `kind` as its `Debug` output spells it.
pub open spec fn kind_name(kind: JsonValueKind) -> Seq<char> {
    match kind {
        JsonValueKind::Null => "Null"@,
        JsonValueKind::Boolean => "Boolean"@,
        JsonValueKind::Integer => "Integer"@,
        JsonValueKind::Float => "Float"@,
        JsonValueKind::String => "String"@,
        JsonValueKind::Array => "Array"@,
        JsonValueKind::Object => "Object"@,
    }
}

impl JsonValueKind {
    /// The name of this kind, as its `Debug` output spells it.
    pub fn debug_name(self) -> (s: &'static str)
        ensures
            s@ == kind_name(self),
    {
        match self {
            JsonValueKind::Null => "Null",
            JsonValueKind::Boolean => "Boolean",
            JsonValueKind::Integer => "Integer",
            JsonValueKind::Float => "Float",
            JsonValueKind::String => "String",
            JsonValueKind::Array => "Array",
            JsonValueKind::Object => "Object",
        }
    }

    /// Returns `true` if this kind is [`JsonValueKind::Null`].
    pub fn is_null(self) -> (b: bool)
        ensures
            b == (self is Null),
    {
        matches!(self, Self::Null)
    }

    /// Returns `true` if this kind is [`JsonValueKind::Boolean`].
    pub fn is_bool(self) -> (b: bool)
        ensures
            b == (self is Boolean),
    {
        matches!(self, Self::Boolean)
    }

    /// Returns `true` if this kind is [`JsonValueKind::Integer`].
    pub fn is_integer(self) -> (b: bool)
        ensures
            b == (self is Integer),
    {
        matches!(self, Self::Integer)
    }

    /// Returns `true` if this kind is [`JsonValueKind::Float`].
    pub fn is_float(self) -> (b: bool)
        ensures
            b == (self is Float),
    {
        matches!(self, Self::Float)
    }

    /// Returns `true` if this kind is either [`JsonValueKind::Integer`] or [`JsonValueKind::Float`].
    pub fn is_number(self) -> (b: bool)
        ensures
            b == (self is Integer || self is Float),
    {
        matches!(self, Self::Integer | Self::Float)
    }

    /// Returns `true` if this kind is [`JsonValueKind::String`].
    pub fn is_string(self) -> (b: bool)
        ensures
            b == (self is String),
    {
        matches!(self, Self::String)
    }

    /// Returns `true` if this kind is [`JsonValueKind::Array`].
    pub fn is_array(self) -> (b: bool)
        ensures
            b == (self is Array),
    {
        matches!(self, Self::Array)
    }

    /// Returns `true` if this kind is [`JsonValueKind::Object`].
    pub fn is_object(self) -> (b: bool)
        ensures
            b == (self is Object),
    {
        matches!(self, Self::Object)
    }
}

} // verus!
