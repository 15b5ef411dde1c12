//! Writing JSON text: [`JsonFormatter`] and the [`DisplayJson`] trait.
use vstd::prelude::*;
use vstd::string::{axiom_spec_iter, next_postcondition};
use vstd::std_specs::iter::IteratorSpec;
use crate::strings::{decimal, string_push, write_decimal};

verus! {

/// The error type of formatting, as `std::fmt` gives it.
#[verifier::external_type_specification]
#[verifier::external_body]
pub struct ExFmtError(core::fmt::Error);

/// The JSON text of the integer `n`.
pub open spec fn integer_text(n: int) -> Seq<char> {
    if n < 0 {
        seq!['-'] + decimal((-n) as nat)
    } else {
        decimal(n as nat)
    }
}

/// The lowercase hexadecimal digit of `d`.
pub open spec fn hex_char(d: int) -> char {
    if d < 10 {
        (0x30 + d) as char
    } else {
        (0x57 + d) as char
    }
}

/// The JSON string escape of the character `c`: `"`, `\` and the control characters
/// U+0000 to U+001F and U+007F are escaped, everything else is kept.
pub open spec fn escape_char(c: char) -> Seq<char> {
    let x = c as int;
    if c == '"' {
        seq!['\\', '"']
    } else if c == '\\' {
        seq!['\\', '\\']
    } else if c == '\n' {
        seq!['\\', 'n']
    } else if c == '\r' {
        seq!['\\', 'r']
    } else if c == '\t' {
        seq!['\\', 't']
    } else if x == 0x08 {
        seq!['\\', 'b']
    } else if x == 0x0c {
        seq!['\\', 'f']
    } else if x < 0x20 || x == 0x7f {
        seq!['\\', 'u', '0', '0', hex_char(x / 16), hex_char(x % 16)]
    } else {
        seq![c]
    }
}

/// The escaped contents of a JSON string holding `s`.
pub open spec fn escape(s: Seq<char>) -> Seq<char>
    decreases s.len(),
{
    if s.len() == 0 {
        seq![]
    } else {
        escape(s.drop_last()) + escape_char(s.last())
    }
}

/// The JSON string literal of `s`: its escape between double quotes.
pub open spec fn quoted(s: Seq<char>) -> Seq<char> {
    seq!['"'] + escape(s) + seq!['"']
}

/// The nesting level inside a container opened at `level`.
pub open spec fn next_level(level: usize) -> usize {
    if level < usize::MAX {
        (level + 1) as usize
    } else {
        usize::MAX
    }
}

/// What precedes an element of an array: a comma after a previous element (and a
/// space when spacing is on without indentation), then the line start.
pub open spec fn element_prefix(first: bool, indent_size: usize, spacing: bool, level: usize) -> Seq<char> {
    (if !first {
        seq![','] + (if spacing && indent_size == 0 {
            seq![' ']
        } else {
            Seq::<char>::empty()
        })
    } else {
        Seq::<char>::empty()
    }) + indentation(indent_size, level)
}

/// What precedes the value of an object member: the separator, the line start, the
/// quoted name and the colon (with a space after it when spacing is on).
pub open spec fn member_head(
    name: Seq<char>,
    first: bool,
    indent_size: usize,
    spacing: bool,
    level: usize,
) -> Seq<char> {
    (if !first {
        seq![','] + (if spacing && indent_size == 0 {
            seq![' ']
        } else {
            Seq::<char>::empty()
        })
    } else if spacing && indent_size == 0 {
        seq![' ']
    } else {
        Seq::<char>::empty()
    }) + indentation(indent_size, level) + quoted(name) + seq![':'] + (if spacing {
        seq![' ']
    } else {
        Seq::<char>::empty()
    })
}

/// `n` spaces.
pub open spec fn spaces(n: nat) -> Seq<char> {
    Seq::new(n, |i: int| ' ')
}

/// The line break and indentation that start a line at `level` with `indent_size`
/// spaces per level (nothing when `indent_size` is zero).
pub open spec fn indentation(indent_size: usize, level: usize) -> Seq<char> {
    if indent_size == 0 {
        seq![]
    } else {
        seq!['\n'] + spaces(
            (if indent_size * level <= usize::MAX {
                indent_size * level
            } else {
                usize::MAX as int
            }) as nat,
        )
    }
}

/// `a * b`, or `usize::MAX` when the product does not fit.
fn saturating_mul(a: usize, b: usize) -> (r: usize)
    ensures
        r == (if a * b <= usize::MAX {
            a * b
        } else {
            usize::MAX as int
        }),
{
    if b == 0 {
        proof {
            assert(a * b == 0) by (nonlinear_arith)
                requires
                    b == 0,
            ;
        }
        0
    } else if a > usize::MAX / b {
        proof {
            assert(a * b > usize::MAX) by (nonlinear_arith)
                requires
                    b > 0,
                    a > usize::MAX / b,
            ;
        }
        usize::MAX
    } else {
        proof {
            assert(a * b <= usize::MAX) by (nonlinear_arith)
                requires
                    b > 0,
                    a <= usize::MAX / b,
            ;
        }
        a * b
    }
}

/// A formatter for JSON values that controls the layout of the output.
///
/// It writes into a text buffer, and holds the nesting level, the number of spaces
/// per indentation level (no line breaks when zero), and whether a space follows
/// `:`, `,` and `{` on a single line.
#[derive(Debug)]
pub struct JsonFormatter {
    inner: String,
    level: usize,
    indent_size: usize,
    spacing: bool,
}

impl JsonFormatter {
    /// The text written so far.
    pub closed spec fn out(&self) -> Seq<char> {
        self.inner@
    }

    /// The current nesting level.
    pub closed spec fn spec_level(&self) -> usize {
        self.level
    }

    /// The number of spaces per indentation level.
    pub closed spec fn spec_indent_size(&self) -> usize {
        self.indent_size
    }

    /// Whether spaces follow `:`, `,` and `{`.
    pub closed spec fn spec_spacing(&self) -> bool {
        self.spacing
    }

    /// `self` and `other` have the same level, indentation and spacing.
    pub open spec fn same_settings(&self, other: &Self) -> bool {
        &&& self.spec_level() == other.spec_level()
        &&& self.spec_indent_size() == other.spec_indent_size()
        &&& self.spec_spacing() == other.spec_spacing()
    }

    /// Creates a formatter with an empty output, at level zero, without indentation
    /// and without spacing.
    pub fn new() -> (f: Self)
        ensures
            f.out() == Seq::<char>::empty(),
            f.spec_level() == 0,
            f.spec_indent_size() == 0,
            !f.spec_spacing(),
    {
        JsonFormatter { inner: String::new(), level: 0, indent_size: 0, spacing: false }
    }

    /// Returns the text written so far.
    pub fn into_string(self) -> (s: String)
        ensures
            s@ == self.out(),
    {
        self.inner
    }

    pub(crate) fn push(&mut self, c: char)
        ensures
            final(self).out() == old(self).out().push(c),
            final(self).same_settings(old(self)),
    {
        string_push(&mut self.inner, c);
    }

    fn push_decimal(&mut self, n: u128)
        ensures
            final(self).out() == old(self).out() + decimal(n as nat),
            final(self).same_settings(old(self)),
    {
        write_decimal(&mut self.inner, n);
    }

    fn push_integer(&mut self, n: i128)
        ensures
            final(self).out() == old(self).out() + integer_text(n as int),
            final(self).same_settings(old(self)),
    {
        if n < 0 {
            self.push('-');
            let m: u128 = ((-(n + 1)) as u128) + 1;
            self.push_decimal(m);
            proof {
                assert(old(self).out() + integer_text(n as int) =~= final(self).out());
            }
        } else {
            self.push_decimal(n as u128);
        }
    }

    fn push_hex(&mut self, d: u32)
        requires
            d < 16,
        ensures
            final(self).out() == old(self).out().push(hex_char(d as int)),
            final(self).same_settings(old(self)),
    {
        let b = d as u8;
        let c = if b < 10 {
            (0x30u8 + b) as char
        } else {
            (0x57u8 + b) as char
        };
        self.push(c);
    }

    fn push_escaped(&mut self, c: char)
        ensures
            final(self).out() == old(self).out() + escape_char(c),
            final(self).same_settings(old(self)),
    {
        let x = c as u32;
        let ghost o = self.out();
        if c == '"' {
            self.push('\\');
            self.push('"');
        } else if c == '\\' {
            self.push('\\');
            self.push('\\');
        } else if c == '\n' {
            self.push('\\');
            self.push('n');
        } else if c == '\r' {
            self.push('\\');
            self.push('r');
        } else if c == '\t' {
            self.push('\\');
            self.push('t');
        } else if x == 0x08 {
            self.push('\\');
            self.push('b');
        } else if x == 0x0c {
            self.push('\\');
            self.push('f');
        } else if x < 0x20 || x == 0x7f {
            self.push('\\');
            self.push('u');
            self.push('0');
            self.push('0');
            self.push_hex(x / 16);
            self.push_hex(x % 16);
        } else {
            self.push(c);
        }
        proof {
            assert(self.out() =~= o + escape_char(c));
        }
    }

    fn push_str_escaped(&mut self, s: &str)
        ensures
            final(self).out() == old(self).out() + escape(s@),
            final(self).same_settings(old(self)),
    {
        broadcast use axiom_spec_iter, next_postcondition;

        let ghost o = self.out();
        for c in it: s.chars()
            invariant
                it.seq() == s@,
                self.out() == o + escape(s@.subrange(0, it.index() as int)),
                self.same_settings(old(self)),
        {
            proof {
                let k = it.index() as int;
                assert(it.seq().subrange(0, k + 1).drop_last() =~= it.seq().subrange(0, k));
                assert(it.seq().subrange(0, k + 1).last() == it.seq()[k]);
            }
            self.push_escaped(c);
            proof {
                let k = it.index() as int;
                assert(o + escape(it.seq().subrange(0, k)) + escape_char(c) =~= o + escape(
                    it.seq().subrange(0, k + 1),
                ));
            }
        }
        proof {
            assert(s@.subrange(0, s@.len() as int) =~= s@);
        }
    }

    /// Writes the line break and indentation of the current level, when indentation
    /// is on.
    pub(crate) fn indent(&mut self)
        ensures
            final(self).out() == old(self).out() + indentation(
                old(self).spec_indent_size(),
                old(self).spec_level(),
            ),
            final(self).same_settings(old(self)),
    {
        let ghost o = self.out();
        if self.indent_size > 0 {
            self.push('\n');
            let n = saturating_mul(self.indent_size, self.level);
            let mut k: usize = 0;
            while k < n
                invariant
                    k <= n,
                    self.out() == o + seq!['\n'] + spaces(k as nat),
                    self.same_settings(old(self)),
                decreases n - k,
            {
                self.push(' ');
                k = k + 1;
                proof {
                    assert(self.out() =~= o + seq!['\n'] + spaces(k as nat));
                }
            }
        } else {
            proof {
                assert(self.out() =~= o + indentation(self.indent_size, self.level));
            }
        }
    }

    /// Writes `null`.
    pub fn null(&mut self) -> (r: Result<(), core::fmt::Error>)
        ensures
            r is Ok,
            final(self).out() == old(self).out() + seq!['n', 'u', 'l', 'l'],
            final(self).same_settings(old(self)),
    {
        self.push('n');
        self.push('u');
        self.push('l');
        self.push('l');
        proof {
            assert(self.out() =~= old(self).out() + seq!['n', 'u', 'l', 'l']);
        }
        Ok(())
    }

    /// Writes `null`.
    pub fn write_null(&mut self) -> (r: Result<(), core::fmt::Error>)
        ensures
            r is Ok,
            final(self).out() == old(self).out() + seq!['n', 'u', 'l', 'l'],
            final(self).same_settings(old(self)),
    {
        self.null()
    }

    /// Writes `true` or `false`.
    pub fn bool(&mut self, v: bool) -> (r: Result<(), core::fmt::Error>)
        ensures
            r is Ok,
            final(self).out() == old(self).out() + (if v {
                seq!['t', 'r', 'u', 'e']
            } else {
                seq!['f', 'a', 'l', 's', 'e']
            }),
            final(self).same_settings(old(self)),
    {
        if v {
            self.push('t');
            self.push('r');
            self.push('u');
            self.push('e');
        } else {
            self.push('f');
            self.push('a');
            self.push('l');
            self.push('s');
            self.push('e');
        }
        proof {
            assert(self.out() =~= old(self).out() + (if v {
                seq!['t', 'r', 'u', 'e']
            } else {
                seq!['f', 'a', 'l', 's', 'e']
            }));
        }
        Ok(())
    }

    /// Writes an integer in decimal.
    pub fn integer(&mut self, v: i64) -> (r: Result<(), core::fmt::Error>)
        ensures
            r is Ok,
            final(self).out() == old(self).out() + integer_text(v as int),
            final(self).same_settings(old(self)),
    {
        self.push_integer(v as i128);
        Ok(())
    }

    /// Writes `content` as a JSON string, with `"`, `\` and control characters
    /// escaped.
    pub fn string(&mut self, content: &str) -> (r: Result<(), core::fmt::Error>)
        ensures
            r is Ok,
            final(self).out() == old(self).out() + quoted(content@),
            final(self).same_settings(old(self)),
    {
        self.push('"');
        self.push_str_escaped(content);
        self.push('"');
        proof {
            assert(self.out() =~= old(self).out() + quoted(content@));
        }
        Ok(())
    }

    /// Formats a value that implements [`DisplayJson`].
    pub fn value<T: DisplayJson>(&mut self, value: T) -> (r: Result<(), core::fmt::Error>)
        ensures
            value.obeys_json() ==> fmt_kept(
                value.json_result(old(self).spec_indent_size(), old(self).spec_spacing(), old(self).spec_level()),
                old(self),
                final(self),
                r,
            ),
    {
        value.fmt(self)
    }

    /// Returns the text buffer written so far.
    pub fn inner_mut(&mut self) -> (s: &mut String)
        ensures
            s@ == old(self).out(),
            final(self).out() == final(s)@,
            final(self).same_settings(old(self)),
    {
        &mut self.inner
    }

    /// Returns the current indentation level.
    pub fn get_level(&self) -> (n: usize)
        ensures
            n == self.spec_level(),
    {
        self.level
    }

    /// Returns the number of spaces used for each indentation level.
    pub fn get_indent_size(&self) -> (n: usize)
        ensures
            n == self.spec_indent_size(),
    {
        self.indent_size
    }

    /// Sets the number of spaces used for each indentation level.
    pub fn set_indent_size(&mut self, size: usize)
        ensures
            final(self).spec_indent_size() == size,
            final(self).out() == old(self).out(),
            final(self).spec_level() == old(self).spec_level(),
            final(self).spec_spacing() == old(self).spec_spacing(),
    {
        self.indent_size = size;
    }

    /// Returns whether a space follows `:`, `,` and `{`.
    pub fn get_spacing(&self) -> (b: bool)
        ensures
            b == self.spec_spacing(),
    {
        self.spacing
    }

    /// Sets whether a space follows `:`, `,` and `{`.
    pub fn set_spacing(&mut self, enable: bool)
        ensures
            final(self).spec_spacing() == enable,
            final(self).out() == old(self).out(),
            final(self).spec_level() == old(self).spec_level(),
            final(self).spec_indent_size() == old(self).spec_indent_size(),
    {
        self.spacing = enable;
    }
}

/// Each value among `members` keeps to its [`DisplayJson::json_result`].
pub open spec fn members_obey<'a, T: DisplayJson>(members: Seq<(&'a str, T)>) -> bool {
    forall|i: int| 0 <= i < members.len() ==> (#[trigger] members[i]).1.obeys_json()
}

/// The members of an object, each after its name and colon, written at `level` (the
/// first without a comma when `first`); `None` when a value fails.
pub open spec fn members_result<'a, T: DisplayJson>(
    members: Seq<(&'a str, T)>,
    first: bool,
    indent_size: usize,
    spacing: bool,
    level: usize,
) -> Option<Seq<char>>
    decreases members.len(),
{
    if members.len() == 0 {
        Some(Seq::<char>::empty())
    } else {
        match members_result(members.drop_last(), first, indent_size, spacing, level) {
            Some(s) => match members.last().1.json_result(indent_size, spacing, level) {
                Some(x) => Some(s + member_head(
                    members.last().0@,
                    members.len() == 1 && first,
                    indent_size,
                    spacing,
                    level,
                ) + x),
                None => None,
            },
            None => None,
        }
    }
}

/// When the first `j` members fail together, all of them do.
pub proof fn lemma_members_none<'a, T: DisplayJson>(
    members: Seq<(&'a str, T)>,
    j: int,
    first: bool,
    indent_size: usize,
    spacing: bool,
    level: usize,
)
    requires
        0 <= j <= members.len(),
        members_result(members.take(j), first, indent_size, spacing, level) is None,
    ensures
        members_result(members, first, indent_size, spacing, level) is None,
    decreases members.len() - j,
{
    if j < members.len() {
        let t = members.take(j + 1);
        assert(t.drop_last() =~= members.take(j));
        lemma_members_none(members, j + 1, first, indent_size, spacing, level);
    } else {
        assert(members.take(j) =~= members);
    }
}

/// A variant of the `Display` trait for JSON: writes a value as JSON text into a
/// [`JsonFormatter`].
pub trait DisplayJson {
    /// Whether `fmt` keeps to [`DisplayJson::json_result`]: every type of this crate
    /// does, and a collection does when each of its items does. A type that does not
    /// say so promises nothing.
    open spec fn obeys_json(&self) -> bool {
        false
    }

    /// The text that `fmt` writes for the value on a formatter at `level` with
    /// `indent_size` spaces per level and `spacing`, or `None` where it fails.
    open spec fn json_result(&self, indent_size: usize, spacing: bool, level: usize) -> Option<Seq<char>> {
        None
    }

    /// Formats the value as JSON into the formatter.
    fn fmt(&self, f: &mut JsonFormatter) -> (r: Result<(), core::fmt::Error>)
        ensures
            self.obeys_json() ==> fmt_kept(self.json_result(
                old(f).spec_indent_size(),
                old(f).spec_spacing(),
                old(f).spec_level(),
            ), old(f), final(f), r),
    ;
}

/// `fmt` went as `result` says, from `before` to `after` with the result `r`: it wrote
/// that text and kept the settings, or it failed where `result` is `None`.
pub open spec fn fmt_kept(
    result: Option<Seq<char>>,
    before: &JsonFormatter,
    after: &JsonFormatter,
    r: Result<(), core::fmt::Error>,
) -> bool {
    match result {
        Some(s) => r is Ok && after.out() == before.out() + s && after.same_settings(before),
        None => r is Err,
    }
}

/// Each of `items` keeps to its [`DisplayJson::json_result`].
pub open spec fn all_obey<T: DisplayJson>(items: Seq<T>) -> bool {
    forall|i: int| 0 <= i < items.len() ==> (#[trigger] items[i]).obeys_json()
}

/// The elements of an array, each after its prefix, written at `inner` (the first
/// without a comma when `first`); `None` when one of them fails.
pub open spec fn elements_result<T: DisplayJson>(
    items: Seq<T>,
    first: bool,
    indent_size: usize,
    spacing: bool,
    inner: usize,
) -> Option<Seq<char>>
    decreases items.len(),
{
    if items.len() == 0 {
        Some(Seq::<char>::empty())
    } else {
        match elements_result(items.drop_last(), first, indent_size, spacing, inner) {
            Some(s) => match items.last().json_result(indent_size, spacing, inner) {
                Some(x) => Some(s + element_prefix(items.len() == 1 && first, indent_size, spacing, inner) + x),
                None => None,
            },
            None => None,
        }
    }
}

/// The JSON array of `items` written at `level`: `[`, the elements one level deeper,
/// the line start when there are elements, then `]`; `None` when an element fails.
pub open spec fn array_result<T: DisplayJson>(
    items: Seq<T>,
    indent_size: usize,
    spacing: bool,
    level: usize,
) -> Option<Seq<char>> {
    match elements_result(items, true, indent_size, spacing, next_level(level)) {
        Some(s) => Some(seq!['['] + s + (if items.len() == 0 {
            Seq::<char>::empty()
        } else {
            indentation(indent_size, level)
        }) + seq![']']),
        None => None,
    }
}

/// When the first `j` items fail together, all of them do.
pub proof fn lemma_elements_none<T: DisplayJson>(
    items: Seq<T>,
    j: int,
    first: bool,
    indent_size: usize,
    spacing: bool,
    inner: usize,
)
    requires
        0 <= j <= items.len(),
        elements_result(items.take(j), first, indent_size, spacing, inner) is None,
    ensures
        elements_result(items, first, indent_size, spacing, inner) is None,
    decreases items.len() - j,
{
    if j < items.len() {
        let t = items.take(j + 1);
        assert(t.drop_last() =~= items.take(j));
        lemma_elements_none(items, j + 1, first, indent_size, spacing, inner);
    } else {
        assert(items.take(j) =~= items);
    }
}

impl<T: DisplayJson + ?Sized> DisplayJson for &T {
    open spec fn obeys_json(&self) -> bool {
        (**self).obeys_json()
    }

    open spec fn json_result(&self, indent_size: usize, spacing: bool, level: usize) -> Option<Seq<char>> {
        (**self).json_result(indent_size, spacing, level)
    }

    fn fmt(&self, f: &mut JsonFormatter) -> (r: Result<(), core::fmt::Error>) {
        (**self).fmt(f)
    }
}

impl<'a> DisplayJson for std::borrow::Cow<'a, str> {
    open spec fn obeys_json(&self) -> bool {
        true
    }

    open spec fn json_result(&self, indent_size: usize, spacing: bool, level: usize) -> Option<Seq<char>> {
        Some(quoted(match self {
            std::borrow::Cow::Borrowed(s) => s@,
            std::borrow::Cow::Owned(s) => s@,
        }))
    }

    fn fmt(&self, f: &mut JsonFormatter) -> (r: Result<(), core::fmt::Error>)
        ensures
            r is Ok,
            final(f).out() == old(f).out() + quoted(match self {
                std::borrow::Cow::Borrowed(s) => s@,
                std::borrow::Cow::Owned(s) => s@,
            }),
            final(f).same_settings(old(f)),
    {
        match self {
            std::borrow::Cow::Borrowed(s) => f.string(s),
            std::borrow::Cow::Owned(s) => f.string(s.as_str()),
        }
    }
}

impl<T: DisplayJson + ?Sized> DisplayJson for &mut T {
    open spec fn obeys_json(&self) -> bool {
        (**self).obeys_json()
    }

    open spec fn json_result(&self, indent_size: usize, spacing: bool, level: usize) -> Option<Seq<char>> {
        (**self).json_result(indent_size, spacing, level)
    }

    fn fmt(&self, f: &mut JsonFormatter) -> (r: Result<(), core::fmt::Error>) {
        (**self).fmt(f)
    }
}

impl<T: DisplayJson + ?Sized> DisplayJson for Box<T> {
    open spec fn obeys_json(&self) -> bool {
        (**self).obeys_json()
    }

    open spec fn json_result(&self, indent_size: usize, spacing: bool, level: usize) -> Option<Seq<char>> {
        (**self).json_result(indent_size, spacing, level)
    }

    fn fmt(&self, f: &mut JsonFormatter) -> (r: Result<(), core::fmt::Error>) {
        (**self).fmt(f)
    }
}

impl<T: DisplayJson> DisplayJson for Option<T> {
    open spec fn obeys_json(&self) -> bool {
        match self {
            Some(v) => v.obeys_json(),
            None => true,
        }
    }

    open spec fn json_result(&self, indent_size: usize, spacing: bool, level: usize) -> Option<Seq<char>> {
        match self {
            Some(v) => v.json_result(indent_size, spacing, level),
            None => Some(seq!['n', 'u', 'l', 'l']),
        }
    }

    fn fmt(&self, f: &mut JsonFormatter) -> (r: Result<(), core::fmt::Error>)
        ensures
            self is None ==> r is Ok && final(f).out() == old(f).out() + seq!['n', 'u', 'l', 'l'],
    {
        match self {
            Some(v) => v.fmt(f),
            None => f.null(),
        }
    }
}

impl DisplayJson for bool {
    open spec fn obeys_json(&self) -> bool {
        true
    }

    open spec fn json_result(&self, indent_size: usize, spacing: bool, level: usize) -> Option<Seq<char>> {
        Some(if *self {
            seq!['t', 'r', 'u', 'e']
        } else {
            seq!['f', 'a', 'l', 's', 'e']
        })
    }

    fn fmt(&self, f: &mut JsonFormatter) -> (r: Result<(), core::fmt::Error>)
        ensures
            r is Ok,
            final(f).out() == old(f).out() + (if *self {
                seq!['t', 'r', 'u', 'e']
            } else {
                seq!['f', 'a', 'l', 's', 'e']
            }),
    {
        f.bool(*self)
    }
}

impl DisplayJson for i8 {
    open spec fn obeys_json(&self) -> bool {
        true
    }

    open spec fn json_result(&self, indent_size: usize, spacing: bool, level: usize) -> Option<Seq<char>> {
        Some(integer_text(*self as int))
    }

    fn fmt(&self, f: &mut JsonFormatter) -> (r: Result<(), core::fmt::Error>)
        ensures
            r is Ok,
            final(f).out() == old(f).out() + integer_text(*self as int),
    {
        f.push_integer(*self as i128);
        Ok(())
    }
}

impl DisplayJson for i16 {
    open spec fn obeys_json(&self) -> bool {
        true
    }

    open spec fn json_result(&self, indent_size: usize, spacing: bool, level: usize) -> Option<Seq<char>> {
        Some(integer_text(*self as int))
    }

    fn fmt(&self, f: &mut JsonFormatter) -> (r: Result<(), core::fmt::Error>)
        ensures
            r is Ok,
            final(f).out() == old(f).out() + integer_text(*self as int),
    {
        f.push_integer(*self as i128);
        Ok(())
    }
}

impl DisplayJson for i32 {
    open spec fn obeys_json(&self) -> bool {
        true
    }

    open spec fn json_result(&self, indent_size: usize, spacing: bool, level: usize) -> Option<Seq<char>> {
        Some(integer_text(*self as int))
    }

    fn fmt(&self, f: &mut JsonFormatter) -> (r: Result<(), core::fmt::Error>)
        ensures
            r is Ok,
            final(f).out() == old(f).out() + integer_text(*self as int),
    {
        f.push_integer(*self as i128);
        Ok(())
    }
}

impl DisplayJson for i64 {
    open spec fn obeys_json(&self) -> bool {
        true
    }

    open spec fn json_result(&self, indent_size: usize, spacing: bool, level: usize) -> Option<Seq<char>> {
        Some(integer_text(*self as int))
    }

    fn fmt(&self, f: &mut JsonFormatter) -> (r: Result<(), core::fmt::Error>)
        ensures
            r is Ok,
            final(f).out() == old(f).out() + integer_text(*self as int),
    {
        f.push_integer(*self as i128);
        Ok(())
    }
}

impl DisplayJson for isize {
    open spec fn obeys_json(&self) -> bool {
        true
    }

    open spec fn json_result(&self, indent_size: usize, spacing: bool, level: usize) -> Option<Seq<char>> {
        Some(integer_text(*self as int))
    }

    fn fmt(&self, f: &mut JsonFormatter) -> (r: Result<(), core::fmt::Error>)
        ensures
            r is Ok,
            final(f).out() == old(f).out() + integer_text(*self as int),
    {
        f.push_integer(*self as i128);
        Ok(())
    }
}

impl DisplayJson for i128 {
    open spec fn obeys_json(&self) -> bool {
        true
    }

    open spec fn json_result(&self, indent_size: usize, spacing: bool, level: usize) -> Option<Seq<char>> {
        Some(integer_text(*self as int))
    }

    fn fmt(&self, f: &mut JsonFormatter) -> (r: Result<(), core::fmt::Error>)
        ensures
            r is Ok,
            final(f).out() == old(f).out() + integer_text(*self as int),
    {
        f.push_integer(*self);
        Ok(())
    }
}

impl DisplayJson for u8 {
    open spec fn obeys_json(&self) -> bool {
        true
    }

    open spec fn json_result(&self, indent_size: usize, spacing: bool, level: usize) -> Option<Seq<char>> {
        Some(decimal(*self as nat))
    }

    fn fmt(&self, f: &mut JsonFormatter) -> (r: Result<(), core::fmt::Error>)
        ensures
            r is Ok,
            final(f).out() == old(f).out() + decimal(*self as nat),
    {
        f.push_decimal(*self as u128);
        Ok(())
    }
}

impl DisplayJson for u16 {
    open spec fn obeys_json(&self) -> bool {
        true
    }

    open spec fn json_result(&self, indent_size: usize, spacing: bool, level: usize) -> Option<Seq<char>> {
        Some(decimal(*self as nat))
    }

    fn fmt(&self, f: &mut JsonFormatter) -> (r: Result<(), core::fmt::Error>)
        ensures
            r is Ok,
            final(f).out() == old(f).out() + decimal(*self as nat),
    {
        f.push_decimal(*self as u128);
        Ok(())
    }
}

impl DisplayJson for u32 {
    open spec fn obeys_json(&self) -> bool {
        true
    }

    open spec fn json_result(&self, indent_size: usize, spacing: bool, level: usize) -> Option<Seq<char>> {
        Some(decimal(*self as nat))
    }

    fn fmt(&self, f: &mut JsonFormatter) -> (r: Result<(), core::fmt::Error>)
        ensures
            r is Ok,
            final(f).out() == old(f).out() + decimal(*self as nat),
    {
        f.push_decimal(*self as u128);
        Ok(())
    }
}

impl DisplayJson for u64 {
    open spec fn obeys_json(&self) -> bool {
        true
    }

    open spec fn json_result(&self, indent_size: usize, spacing: bool, level: usize) -> Option<Seq<char>> {
        Some(decimal(*self as nat))
    }

    fn fmt(&self, f: &mut JsonFormatter) -> (r: Result<(), core::fmt::Error>)
        ensures
            r is Ok,
            final(f).out() == old(f).out() + decimal(*self as nat),
    {
        f.push_decimal(*self as u128);
        Ok(())
    }
}

impl DisplayJson for usize {
    open spec fn obeys_json(&self) -> bool {
        true
    }

    open spec fn json_result(&self, indent_size: usize, spacing: bool, level: usize) -> Option<Seq<char>> {
        Some(decimal(*self as nat))
    }

    fn fmt(&self, f: &mut JsonFormatter) -> (r: Result<(), core::fmt::Error>)
        ensures
            r is Ok,
            final(f).out() == old(f).out() + decimal(*self as nat),
    {
        f.push_decimal(*self as u128);
        Ok(())
    }
}

impl DisplayJson for u128 {
    open spec fn obeys_json(&self) -> bool {
        true
    }

    open spec fn json_result(&self, indent_size: usize, spacing: bool, level: usize) -> Option<Seq<char>> {
        Some(decimal(*self as nat))
    }

    fn fmt(&self, f: &mut JsonFormatter) -> (r: Result<(), core::fmt::Error>)
        ensures
            r is Ok,
            final(f).out() == old(f).out() + decimal(*self as nat),
    {
        f.push_decimal(*self);
        Ok(())
    }
}

impl DisplayJson for str {
    open spec fn obeys_json(&self) -> bool {
        true
    }

    open spec fn json_result(&self, indent_size: usize, spacing: bool, level: usize) -> Option<Seq<char>> {
        Some(quoted(self@))
    }

    fn fmt(&self, f: &mut JsonFormatter) -> (r: Result<(), core::fmt::Error>)
        ensures
            r is Ok,
            final(f).out() == old(f).out() + quoted(self@),
    {
        f.string(self)
    }
}

impl DisplayJson for String {
    open spec fn obeys_json(&self) -> bool {
        true
    }

    open spec fn json_result(&self, indent_size: usize, spacing: bool, level: usize) -> Option<Seq<char>> {
        Some(quoted(self@))
    }

    fn fmt(&self, f: &mut JsonFormatter) -> (r: Result<(), core::fmt::Error>)
        ensures
            r is Ok,
            final(f).out() == old(f).out() + quoted(self@),
    {
        f.string(self.as_str())
    }
}

impl<T: DisplayJson> DisplayJson for [T] {
    open spec fn obeys_json(&self) -> bool {
        all_obey(self@)
    }

    open spec fn json_result(&self, indent_size: usize, spacing: bool, level: usize) -> Option<Seq<char>> {
        array_result(self@, indent_size, spacing, level)
    }

    fn fmt(&self, f: &mut JsonFormatter) -> (r: Result<(), core::fmt::Error>)
        ensures
            r is Ok ==> final(f).out().last() == ']' && final(f).same_settings(old(f)),
    {
        f.write_elements(self)
    }
}

impl<T: DisplayJson, const N: usize> DisplayJson for [T; N] {
    open spec fn obeys_json(&self) -> bool {
        all_obey(self@)
    }

    open spec fn json_result(&self, indent_size: usize, spacing: bool, level: usize) -> Option<Seq<char>> {
        array_result(self@, indent_size, spacing, level)
    }

    fn fmt(&self, f: &mut JsonFormatter) -> (r: Result<(), core::fmt::Error>)
        ensures
            r is Ok ==> final(f).out().last() == ']' && final(f).same_settings(old(f)),
    {
        f.write_elements(self.as_slice())
    }
}

impl<T: DisplayJson> DisplayJson for Vec<T> {
    open spec fn obeys_json(&self) -> bool {
        all_obey(self@)
    }

    open spec fn json_result(&self, indent_size: usize, spacing: bool, level: usize) -> Option<Seq<char>> {
        array_result(self@, indent_size, spacing, level)
    }

    fn fmt(&self, f: &mut JsonFormatter) -> (r: Result<(), core::fmt::Error>)
        ensures
            r is Ok ==> final(f).out().last() == ']' && final(f).same_settings(old(f)),
    {
        f.write_elements(self.as_slice())
    }
}

impl<T: DisplayJson> DisplayJson for std::collections::VecDeque<T> {
    open spec fn obeys_json(&self) -> bool {
        all_obey(self@)
    }

    open spec fn json_result(&self, indent_size: usize, spacing: bool, level: usize) -> Option<Seq<char>> {
        array_result(self@, indent_size, spacing, level)
    }

    #[verifier::rlimit(40)]
    fn fmt(&self, f: &mut JsonFormatter) -> (r: Result<(), core::fmt::Error>)
        ensures
            r is Ok ==> final(f).out().last() == ']' && final(f).same_settings(old(f)),
    {
        let indent_size = f.get_indent_size();
        let spacing = f.get_spacing();
        let level = f.write_array_start();
        let ghost o1 = f.out();
        let ghost inner = f.spec_level();
        let ghost items = self@;
        let mut empty = true;
        let mut k: usize = 0;
        while k < self.len()
            invariant
                items == self@,
                k <= items.len(),
                empty == (k == 0),
                o1 == old(f).out().push('['),
                inner == next_level(old(f).spec_level()),
                level == old(f).spec_level(),
                indent_size == old(f).spec_indent_size(),
                spacing == old(f).spec_spacing(),
                all_obey(items) ==> elements_result(items.take(k as int), true, indent_size, spacing, inner) is Some
                    && f.out() == o1 + elements_result(items.take(k as int), true, indent_size, spacing, inner)->Some_0
                    && f.spec_level() == inner && f.spec_indent_size() == indent_size
                    && f.spec_spacing() == spacing,
            decreases items.len() - k,
        {
            proof {
                let t = items.take(k + 1);
                assert(t.drop_last() =~= items.take(k as int));
                assert(t.last() == items[k as int]);
            }
            let r = f.write_array_element(&self[k], empty);
            if let Err(e) = r {
                proof {
                    if all_obey(items) {
                        assert(items[k as int].obeys_json());
                        lemma_elements_none(items, k + 1, true, indent_size, spacing, inner);
                    }
                }
                return Err(e);
            }
            empty = false;
            k = k + 1;
        }
        proof {
            assert(items.take(k as int) =~= items);
        }
        f.set_indent_size(indent_size);
        f.set_spacing(spacing);
        let r = f.write_array_end(level, empty);
        proof {
            if all_obey(items) {
                let s = elements_result(items, true, indent_size, spacing, inner)->Some_0;
                let tail = if items.len() == 0 {
                    Seq::<char>::empty()
                } else {
                    indentation(indent_size, level)
                };
                assert(f.out() =~= old(f).out() + (seq!['['] + s + tail + seq![']']));
            }
        }
        r
    }
}

impl JsonFormatter {
    /// Writes the elements of `items` as a JSON array.
    #[verifier::rlimit(40)]
    fn write_elements<T: DisplayJson>(&mut self, items: &[T]) -> (r: Result<(), core::fmt::Error>)
        ensures
            r is Ok ==> final(self).out().last() == ']' && final(self).same_settings(old(self)),
            all_obey(items@) ==> fmt_kept(
                array_result(items@, old(self).spec_indent_size(), old(self).spec_spacing(), old(self).spec_level()),
                old(self),
                final(self),
                r,
            ),
    {
        let indent_size = self.indent_size;
        let spacing = self.spacing;
        let level = self.write_array_start();
        let ghost o1 = self.out();
        let ghost inner = self.spec_level();
        let mut empty = true;
        let mut k: usize = 0;
        while k < items.len()
            invariant
                k <= items@.len(),
                empty == (k == 0),
                o1 == old(self).out().push('['),
                inner == next_level(old(self).spec_level()),
                level == old(self).spec_level(),
                indent_size == old(self).spec_indent_size(),
                spacing == old(self).spec_spacing(),
                all_obey(items@) ==> elements_result(items@.take(k as int), true, indent_size, spacing, inner) is Some
                    && self.out() == o1 + elements_result(items@.take(k as int), true, indent_size, spacing, inner)->Some_0
                    && self.spec_level() == inner && self.spec_indent_size() == indent_size
                    && self.spec_spacing() == spacing,
            decreases items@.len() - k,
        {
            proof {
                let t = items@.take(k + 1);
                assert(t.drop_last() =~= items@.take(k as int));
                assert(t.last() == items@[k as int]);
            }
            let r = self.write_array_element(&items[k], empty);
            if let Err(e) = r {
                proof {
                    if all_obey(items@) {
                        assert(items@[k as int].obeys_json());
                        lemma_elements_none(items@, k + 1, true, indent_size, spacing, inner);
                    }
                }
                return Err(e);
            }
            empty = false;
            k = k + 1;
        }
        proof {
            assert(items@.take(k as int) =~= items@);
        }
        self.indent_size = indent_size;
        self.spacing = spacing;
        let ghost o2 = self.out();
        let r = self.write_array_end(level, empty);
        proof {
            if all_obey(items@) {
                let s = elements_result(items@, true, indent_size, spacing, inner)->Some_0;
                let tail = if items@.len() == 0 {
                    Seq::<char>::empty()
                } else {
                    indentation(indent_size, level)
                };
                assert(self.out() =~= old(self).out() + (seq!['['] + s + tail + seq![']']));
            }
        }
        r
    }

    /// Starts an array: writes `[` and enters the next nesting level. Returns the
    /// level outside the array.
    pub fn write_array_start(&mut self) -> (r: usize)
        ensures
            final(self).out() == old(self).out().push('['),
            r == old(self).spec_level(),
            final(self).spec_level() == (if old(self).spec_level() < usize::MAX {
                old(self).spec_level() + 1
            } else {
                usize::MAX as int
            }),
            final(self).spec_indent_size() == old(self).spec_indent_size(),
            final(self).spec_spacing() == old(self).spec_spacing(),
    {
        self.push('[');
        let level = self.level;
        self.level = level.saturating_add(1);
        level
    }

    /// Writes the separator and the line start before an array element.
    pub(crate) fn write_element_prefix(&mut self, first: bool)
        ensures
            final(self).out() == old(self).out() + element_prefix(
                first,
                old(self).spec_indent_size(),
                old(self).spec_spacing(),
                old(self).spec_level(),
            ),
            final(self).same_settings(old(self)),
    {
        let ghost o = self.out();
        if !first {
            self.push(',');
            if self.spacing && self.indent_size == 0 {
                self.push(' ');
            }
        }
        let ghost o2 = self.out();
        self.indent();
        proof {
            assert(self.out() =~= o + element_prefix(
                first,
                old(self).spec_indent_size(),
                old(self).spec_spacing(),
                old(self).spec_level(),
            ));
        }
    }

    /// Writes the separator and the line start before an array element, then the
    /// element.
    pub fn write_array_element<T: DisplayJson>(&mut self, value: T, first: bool) -> (r: Result<
        (),
        core::fmt::Error,
    >)
        ensures
            value.obeys_json() ==> match value.json_result(
                old(self).spec_indent_size(),
                old(self).spec_spacing(),
                old(self).spec_level(),
            ) {
                Some(x) => r is Ok && final(self).out() == old(self).out() + element_prefix(
                    first,
                    old(self).spec_indent_size(),
                    old(self).spec_spacing(),
                    old(self).spec_level(),
                ) + x && final(self).same_settings(old(self)),
                None => r is Err,
            },
    {
        self.write_element_prefix(first);
        self.value(value)
    }

    /// Ends an array at `level`: the line start when it has elements, then `]`.
    pub fn write_array_end(&mut self, level: usize, empty: bool) -> (r: Result<(), core::fmt::Error>)
        ensures
            r is Ok,
            final(self).spec_level() == level,
            final(self).out().last() == ']',
            final(self).spec_indent_size() == old(self).spec_indent_size(),
            final(self).spec_spacing() == old(self).spec_spacing(),
            final(self).out() == old(self).out() + (if empty {
                Seq::<char>::empty()
            } else {
                indentation(old(self).spec_indent_size(), level)
            }).push(']'),
    {
        self.level = level;
        let ghost o = self.out();
        if !empty {
            self.indent();
        }
        self.push(']');
        proof {
            assert(self.out() =~= o + (if empty {
                Seq::<char>::empty()
            } else {
                indentation(old(self).spec_indent_size(), level)
            }).push(']'));
        }
        Ok(())
    }
}

/// Writes the elements of a JSON array (see [`JsonFormatter::array`]).
pub struct JsonArrayFormatter<'a> {
    fmt: &'a mut JsonFormatter,
    empty: bool,
    outer_level: usize,
}

impl<'a> JsonArrayFormatter<'a> {
    /// Whether no element was written yet.
    pub closed spec fn spec_empty(&self) -> bool {
        self.empty
    }

    /// The text written so far.
    pub closed spec fn out(&self) -> Seq<char> {
        self.fmt.out()
    }

    /// The nesting level outside the array.
    pub closed spec fn spec_outer_level(&self) -> usize {
        self.outer_level
    }

    /// The formatter's indentation width.
    pub closed spec fn spec_indent_size(&self) -> usize {
        self.fmt.spec_indent_size()
    }

    /// Whether the formatter puts a space after `,` on a single line.
    pub closed spec fn spec_spacing(&self) -> bool {
        self.fmt.spec_spacing()
    }

    /// The nesting level of the elements.
    pub closed spec fn spec_level(&self) -> usize {
        self.fmt.spec_level()
    }

    /// `self` and `other` write at the same level with the same settings, inside the
    /// same outer level.
    pub open spec fn same_place(&self, other: &Self) -> bool {
        &&& self.spec_indent_size() == other.spec_indent_size()
        &&& self.spec_spacing() == other.spec_spacing()
        &&& self.spec_level() == other.spec_level()
        &&& self.spec_outer_level() == other.spec_outer_level()
    }

    /// Starts an array on `fmt`: writes `[`.
    pub fn new(fmt: &'a mut JsonFormatter) -> (a: Self)
        ensures
            a.spec_empty(),
            a.out() == old(fmt).out().push('['),
            a.spec_outer_level() == old(fmt).spec_level(),
            a.spec_indent_size() == old(fmt).spec_indent_size(),
    {
        let level = fmt.write_array_start();
        JsonArrayFormatter { fmt, empty: true, outer_level: level }
    }

    /// Writes an element: a comma after a previous element (and a space when spacing
    /// is on without indentation), the line start, then the element.
    pub fn element<T: DisplayJson>(&mut self, element: T) -> (r: Result<(), core::fmt::Error>)
        ensures
            r is Ok ==> !final(self).spec_empty(),
            r is Err ==> final(self).spec_empty() == old(self).spec_empty(),
            element.obeys_json() ==> match element.json_result(
                old(self).spec_indent_size(),
                old(self).spec_spacing(),
                old(self).spec_level(),
            ) {
                Some(x) => r is Ok && final(self).out() == old(self).out() + element_prefix(
                    old(self).spec_empty(),
                    old(self).spec_indent_size(),
                    old(self).spec_spacing(),
                    old(self).spec_level(),
                ) + x && final(self).same_place(old(self)),
                None => r is Err,
            },
    {
        let first = self.empty;
        let r = self.fmt.write_array_element(element, first);
        match r {
            Ok(()) => {
                self.empty = false;
                Ok(())
            },
            Err(e) => Err(e),
        }
    }

    /// Writes an element (see [`JsonArrayFormatter::element`]).
    pub fn value<T: DisplayJson>(&mut self, value: T) -> (r: Result<(), core::fmt::Error>)
        ensures
            r is Ok ==> !final(self).spec_empty(),
            r is Err ==> final(self).spec_empty() == old(self).spec_empty(),
            value.obeys_json() ==> match value.json_result(
                old(self).spec_indent_size(),
                old(self).spec_spacing(),
                old(self).spec_level(),
            ) {
                Some(x) => r is Ok && final(self).out() == old(self).out() + element_prefix(
                    old(self).spec_empty(),
                    old(self).spec_indent_size(),
                    old(self).spec_spacing(),
                    old(self).spec_level(),
                ) + x && final(self).same_place(old(self)),
                None => r is Err,
            },
    {
        self.element(value)
    }

    /// Writes an element with `f`, which writes the value itself.
    pub fn value_with<F>(&mut self, f: F) -> (r: Result<(), core::fmt::Error>)
        where
            F: FnOnce(&mut JsonFormatter) -> Result<(), core::fmt::Error>,
        requires
            forall|x: &mut JsonFormatter| f.requires((x,)),
        ensures
            r is Ok ==> !final(self).spec_empty(),
            r is Err ==> final(self).spec_empty() == old(self).spec_empty(),
            exists|x: &mut JsonFormatter|
                x.out() == old(self).out() + element_prefix(
                    old(self).spec_empty(),
                    old(self).spec_indent_size(),
                    old(self).spec_spacing(),
                    old(self).spec_level(),
                ) && x.spec_indent_size() == old(self).spec_indent_size()
                    && x.spec_spacing() == old(self).spec_spacing()
                    && x.spec_level() == old(self).spec_level()
                    && call_ensures(f, (x,), r) && final(x).out() == final(self).out(),
            final(self).spec_outer_level() == old(self).spec_outer_level(),
    {
        let first = self.empty;
        self.fmt.write_element_prefix(first);
        let r = f(&mut *self.fmt);
        if r.is_ok() {
            self.empty = false;
        }
        r
    }

    /// Writes each element of `elements`, stopping at the first error.
    #[verifier::rlimit(40)]
    pub fn elements<T: DisplayJson>(&mut self, elements: &[T]) -> (r: Result<(), core::fmt::Error>)
        ensures
            r is Ok && elements@.len() > 0 ==> !final(self).spec_empty(),
            r is Ok && elements@.len() == 0 ==> final(self).spec_empty() == old(self).spec_empty(),
            all_obey(elements@) ==> match elements_result(
                elements@,
                old(self).spec_empty(),
                old(self).spec_indent_size(),
                old(self).spec_spacing(),
                old(self).spec_level(),
            ) {
                Some(s) => r is Ok && final(self).out() == old(self).out() + s && final(self).same_place(old(self)),
                None => r is Err,
            },
    {
        let ghost first = self.empty;
        let mut k: usize = 0;
        while k < elements.len()
            invariant
                k <= elements@.len(),
                k > 0 ==> !self.empty,
                k == 0 ==> self.empty == old(self).empty,
                first == old(self).spec_empty(),
                all_obey(elements@) ==> elements_result(
                    elements@.take(k as int),
                    first,
                    old(self).spec_indent_size(),
                    old(self).spec_spacing(),
                    old(self).spec_level(),
                ) is Some && self.out() == old(self).out() + elements_result(
                    elements@.take(k as int),
                    first,
                    old(self).spec_indent_size(),
                    old(self).spec_spacing(),
                    old(self).spec_level(),
                )->Some_0 && self.same_place(old(self)),
            decreases elements@.len() - k,
        {
            proof {
                let t = elements@.take(k + 1);
                assert(t.drop_last() =~= elements@.take(k as int));
                assert(t.last() == elements@[k as int]);
            }
            let r = self.element(&elements[k]);
            if let Err(e) = r {
                proof {
                    if all_obey(elements@) {
                        assert(elements@[k as int].obeys_json());
                        lemma_elements_none(
                            elements@,
                            k + 1,
                            first,
                            old(self).spec_indent_size(),
                            old(self).spec_spacing(),
                            old(self).spec_level(),
                        );
                    }
                }
                return Err(e);
            }
            k = k + 1;
        }
        proof {
            assert(elements@.take(k as int) =~= elements@);
        }
        Ok(())
    }

    /// Writes each element of `values` (see [`JsonArrayFormatter::elements`]).
    pub fn values<T: DisplayJson>(&mut self, values: &[T]) -> (r: Result<(), core::fmt::Error>)
        ensures
            r is Ok && values@.len() > 0 ==> !final(self).spec_empty(),
            all_obey(values@) ==> match elements_result(
                values@,
                old(self).spec_empty(),
                old(self).spec_indent_size(),
                old(self).spec_spacing(),
                old(self).spec_level(),
            ) {
                Some(s) => r is Ok && final(self).out() == old(self).out() + s && final(self).same_place(old(self)),
                None => r is Err,
            },
    {
        self.elements(values)
    }

    /// Ends the array: the line start when it has elements, then `]`; the nesting
    /// level goes back to the one outside the array.
    pub fn finish(&mut self) -> (r: Result<(), core::fmt::Error>)
        ensures
            r is Ok,
            final(self).out().last() == ']',
            final(self).out() == old(self).out() + (if old(self).spec_empty() {
                Seq::<char>::empty()
            } else {
                indentation(old(self).spec_indent_size(), old(self).spec_outer_level())
            }).push(']'),
    {
        let level = self.outer_level;
        let empty = self.empty;
        self.fmt.write_array_end(level, empty)
    }
}


impl JsonFormatter {
    /// Writes a JSON array whose elements `f` writes through a [`JsonArrayFormatter`].
    /// Indentation and spacing changed inside are restored afterwards; the closing
    /// `]` goes on its own line when the array has elements and indentation is on.
    pub fn array<F>(&mut self, f: F) -> (r: Result<(), core::fmt::Error>)
        where
            F: FnOnce(&mut JsonArrayFormatter) -> Result<(), core::fmt::Error>,
        requires
            forall|a: &mut JsonArrayFormatter| f.requires((a,)),
        ensures
            r is Ok ==> final(self).out().len() > 0 && final(self).out().last() == ']'
                && final(self).same_settings(old(self)),
            exists|a: &mut JsonArrayFormatter|
                #![trigger call_ensures(f, (a,), r)]
                a.spec_empty() && a.out() == old(self).out().push('[')
                    && a.spec_outer_level() == old(self).spec_level()
                    && a.spec_level() == next_level(old(self).spec_level())
                    && a.spec_indent_size() == old(self).spec_indent_size()
                    && a.spec_spacing() == old(self).spec_spacing()
                    && call_ensures(f, (a,), r)
                    && (r is Ok ==> final(self).out() == final(a).out() + (if final(a).spec_empty() {
                        Seq::<char>::empty()
                    } else {
                        indentation(old(self).spec_indent_size(), old(self).spec_level())
                    }).push(']')),
    {
        let indent_size = self.indent_size;
        let spacing = self.spacing;
        let level = self.write_array_start();
        // The elements are written into the formatter's text moved aside, which goes
        // back in once the callback is done.
        let mut inner = JsonFormatter::new();
        std::mem::swap(&mut inner, self);
        let mut array = JsonArrayFormatter { fmt: &mut inner, empty: true, outer_level: level };
        let r = f(&mut array);
        std::mem::swap(self, array.fmt);
        let empty = array.empty;
        if r.is_err() {
            return r;
        }
        self.indent_size = indent_size;
        self.spacing = spacing;
        match self.write_array_end(level, empty) {
            Ok(()) => r,
            Err(e) => Err(e),
        }
    }

    /// Writes a JSON object whose members `f` writes through a
    /// [`JsonObjectFormatter`]. Indentation and spacing changed inside are restored
    /// afterwards; a non-empty object ends with the line start when indentation is
    /// on, or with a space when spacing is on.
    pub fn object<F>(&mut self, f: F) -> (r: Result<(), core::fmt::Error>)
        where
            F: FnOnce(&mut JsonObjectFormatter) -> Result<(), core::fmt::Error>,
        requires
            forall|a: &mut JsonObjectFormatter| f.requires((a,)),
        ensures
            r is Ok ==> final(self).out().len() > 0 && final(self).out().last() == '}'
                && final(self).same_settings(old(self)),
            exists|a: &mut JsonObjectFormatter|
                #![trigger call_ensures(f, (a,), r)]
                a.spec_empty() && a.out() == old(self).out().push('{')
                    && a.spec_outer_level() == old(self).spec_level()
                    && a.spec_level() == next_level(old(self).spec_level())
                    && a.spec_indent_size() == old(self).spec_indent_size()
                    && a.spec_spacing() == old(self).spec_spacing()
                    && call_ensures(f, (a,), r)
                    && (r is Ok ==> final(self).out() == final(a).out() + (if final(a).spec_empty() {
                        Seq::<char>::empty()
                    } else if old(self).spec_indent_size() > 0 {
                        indentation(old(self).spec_indent_size(), old(self).spec_level())
                    } else if old(self).spec_spacing() {
                        seq![' ']
                    } else {
                        Seq::<char>::empty()
                    }).push('}')),
    {
        let indent_size = self.indent_size;
        let spacing = self.spacing;
        let level = self.write_object_start();
        // The elements are written into the formatter's text moved aside, which goes
        // back in once the callback is done.
        let mut inner = JsonFormatter::new();
        std::mem::swap(&mut inner, self);
        let mut object = JsonObjectFormatter { fmt: &mut inner, empty: true, outer_level: level };
        let r = f(&mut object);
        std::mem::swap(self, object.fmt);
        let empty = object.empty;
        if r.is_err() {
            return r;
        }
        self.indent_size = indent_size;
        self.spacing = spacing;
        match self.write_object_end(level, empty) {
            Ok(()) => r,
            Err(e) => Err(e),
        }
    }

    pub(crate) fn write_object_start(&mut self) -> (r: usize)
        ensures
            final(self).out() == old(self).out().push('{'),
            r == old(self).spec_level(),
            final(self).spec_level() == next_level(old(self).spec_level()),
            final(self).spec_indent_size() == old(self).spec_indent_size(),
            final(self).spec_spacing() == old(self).spec_spacing(),
    {
        self.push('{');
        let level = self.level;
        self.level = level.saturating_add(1);
        level
    }

    pub(crate) fn write_object_end(&mut self, level: usize, empty: bool) -> (r: Result<(), core::fmt::Error>)
        ensures
            r is Ok,
            final(self).spec_level() == level,
            final(self).out().last() == '}',
            final(self).spec_indent_size() == old(self).spec_indent_size(),
            final(self).spec_spacing() == old(self).spec_spacing(),
            final(self).out() == old(self).out() + (if empty {
                Seq::<char>::empty()
            } else if old(self).spec_indent_size() > 0 {
                indentation(old(self).spec_indent_size(), level)
            } else if old(self).spec_spacing() {
                seq![' ']
            } else {
                Seq::<char>::empty()
            }).push('}'),
    {
        self.level = level;
        let ghost o = self.out();
        if !empty {
            if self.indent_size > 0 {
                self.indent();
            } else if self.spacing {
                self.push(' ');
            }
        }
        self.push('}');
        proof {
            assert(self.out() =~= o + (if empty {
                Seq::<char>::empty()
            } else if old(self).spec_indent_size() > 0 {
                indentation(old(self).spec_indent_size(), level)
            } else if old(self).spec_spacing() {
                seq![' ']
            } else {
                Seq::<char>::empty()
            }).push('}'));
        }
        Ok(())
    }

    /// Writes the separator and the line start before an object member, then the
    /// quoted name and the colon.
    pub(crate) fn write_member_name(&mut self, name: &str, first: bool)
        ensures
            final(self).same_settings(old(self)),
            final(self).out() == old(self).out() + member_head(
                name@,
                first,
                old(self).spec_indent_size(),
                old(self).spec_spacing(),
                old(self).spec_level(),
            ),
    {
        let ghost o = self.out();
        if !first {
            self.push(',');
            if self.spacing && self.indent_size == 0 {
                self.push(' ');
            }
        } else if self.spacing && self.indent_size == 0 {
            self.push(' ');
        }
        let ghost o2 = self.out();
        self.indent();
        let _ = self.string(name);
        self.push(':');
        if self.spacing {
            self.push(' ');
        }
        proof {
            assert(self.out() =~= o + member_head(
                name@,
                first,
                old(self).spec_indent_size(),
                old(self).spec_spacing(),
                old(self).spec_level(),
            ));
        }
    }
}

/// Writes the members of a JSON object (see [`JsonFormatter::object`]).
pub struct JsonObjectFormatter<'a> {
    fmt: &'a mut JsonFormatter,
    empty: bool,
    outer_level: usize,
}

impl<'a> JsonObjectFormatter<'a> {
    /// Whether no member was written yet.
    pub closed spec fn spec_empty(&self) -> bool {
        self.empty
    }

    /// The text written so far.
    pub closed spec fn out(&self) -> Seq<char> {
        self.fmt.out()
    }

    /// The nesting level outside the object.
    pub closed spec fn spec_outer_level(&self) -> usize {
        self.outer_level
    }

    /// The formatter's indentation width.
    pub closed spec fn spec_indent_size(&self) -> usize {
        self.fmt.spec_indent_size()
    }

    /// Whether the formatter puts spaces after `:`, `,` and `{`.
    pub closed spec fn spec_spacing(&self) -> bool {
        self.fmt.spec_spacing()
    }

    /// The nesting level of the members.
    pub closed spec fn spec_level(&self) -> usize {
        self.fmt.spec_level()
    }

    /// `self` and `other` write at the same level with the same settings, inside the
    /// same outer level.
    pub open spec fn same_place(&self, other: &Self) -> bool {
        &&& self.spec_indent_size() == other.spec_indent_size()
        &&& self.spec_spacing() == other.spec_spacing()
        &&& self.spec_level() == other.spec_level()
        &&& self.spec_outer_level() == other.spec_outer_level()
    }

    /// Starts an object on `fmt`: writes `{`.
    pub fn new(fmt: &'a mut JsonFormatter) -> (o: Self)
        ensures
            o.spec_empty(),
            o.out() == old(fmt).out().push('{'),
            o.spec_outer_level() == old(fmt).spec_level(),
            o.spec_indent_size() == old(fmt).spec_indent_size(),
            o.spec_spacing() == old(fmt).spec_spacing(),
    {
        let level = fmt.write_object_start();
        JsonObjectFormatter { fmt, empty: true, outer_level: level }
    }

    /// Writes a member: the separator, the line start, the quoted name, `:` (and a
    /// space when spacing is on), then the value.
    pub fn member<T: DisplayJson>(&mut self, name: &str, value: T) -> (r: Result<(), core::fmt::Error>)
        ensures
            r is Ok ==> !final(self).spec_empty(),
            r is Err ==> final(self).spec_empty() == old(self).spec_empty(),
            value.obeys_json() ==> match value.json_result(
                old(self).spec_indent_size(),
                old(self).spec_spacing(),
                old(self).spec_level(),
            ) {
                Some(x) => r is Ok && final(self).out() == old(self).out() + member_head(
                    name@,
                    old(self).spec_empty(),
                    old(self).spec_indent_size(),
                    old(self).spec_spacing(),
                    old(self).spec_level(),
                ) + x && final(self).same_place(old(self)),
                None => r is Err,
            },
    {
        let first = self.empty;
        self.fmt.write_member_name(name, first);
        let r = self.fmt.value(value);
        match r {
            Ok(()) => {
                self.empty = false;
                Ok(())
            },
            Err(e) => Err(e),
        }
    }

    /// Writes a member whose value `f` writes.
    pub fn member_with<F>(&mut self, name: &str, f: F) -> (r: Result<(), core::fmt::Error>)
        where
            F: FnOnce(&mut JsonFormatter) -> Result<(), core::fmt::Error>,
        requires
            forall|x: &mut JsonFormatter| f.requires((x,)),
        ensures
            r is Ok ==> !final(self).spec_empty(),
            r is Err ==> final(self).spec_empty() == old(self).spec_empty(),
            exists|x: &mut JsonFormatter|
                x.out() == old(self).out() + member_head(
                    name@,
                    old(self).spec_empty(),
                    old(self).spec_indent_size(),
                    old(self).spec_spacing(),
                    old(self).spec_level(),
                ) && x.spec_indent_size() == old(self).spec_indent_size()
                    && x.spec_spacing() == old(self).spec_spacing()
                    && x.spec_level() == old(self).spec_level()
                    && call_ensures(f, (x,), r) && final(x).out() == final(self).out(),
            final(self).spec_outer_level() == old(self).spec_outer_level(),
    {
        let first = self.empty;
        self.fmt.write_member_name(name, first);
        let r = f(&mut *self.fmt);
        if r.is_ok() {
            self.empty = false;
        }
        r
    }

    /// Writes each member of `members`, stopping at the first error.
    #[verifier::rlimit(40)]
    pub fn members<T: DisplayJson>(&mut self, members: &[(&str, T)]) -> (r: Result<
        (),
        core::fmt::Error,
    >)
        ensures
            r is Ok && members@.len() > 0 ==> !final(self).spec_empty(),
            r is Ok && members@.len() == 0 ==> final(self).spec_empty() == old(self).spec_empty(),
            members_obey(members@) ==> match members_result(
                members@,
                old(self).spec_empty(),
                old(self).spec_indent_size(),
                old(self).spec_spacing(),
                old(self).spec_level(),
            ) {
                Some(s) => r is Ok && final(self).out() == old(self).out() + s && final(self).same_place(old(self)),
                None => r is Err,
            },
    {
        let ghost first = self.empty;
        let mut k: usize = 0;
        while k < members.len()
            invariant
                k <= members@.len(),
                k > 0 ==> !self.empty,
                k == 0 ==> self.empty == old(self).empty,
                first == old(self).spec_empty(),
                members_obey(members@) ==> members_result(
                    members@.take(k as int),
                    first,
                    old(self).spec_indent_size(),
                    old(self).spec_spacing(),
                    old(self).spec_level(),
                ) is Some && self.out() == old(self).out() + members_result(
                    members@.take(k as int),
                    first,
                    old(self).spec_indent_size(),
                    old(self).spec_spacing(),
                    old(self).spec_level(),
                )->Some_0 && self.same_place(old(self)),
            decreases members@.len() - k,
        {
            proof {
                let t = members@.take(k + 1);
                assert(t.drop_last() =~= members@.take(k as int));
                assert(t.last() == members@[k as int]);
            }
            let (name, value) = &members[k];
            let r = self.member(name, value);
            if let Err(e) = r {
                proof {
                    if members_obey(members@) {
                        assert(members@[k as int].1.obeys_json());
                        lemma_members_none(
                            members@,
                            k + 1,
                            first,
                            old(self).spec_indent_size(),
                            old(self).spec_spacing(),
                            old(self).spec_level(),
                        );
                    }
                }
                return Err(e);
            }
            k = k + 1;
        }
        proof {
            assert(members@.take(k as int) =~= members@);
        }
        Ok(())
    }

    /// Ends the object: `}` after the line start (or a space) when it has members;
    /// the nesting level goes back to the one outside the object.
    pub fn finish(&mut self) -> (r: Result<(), core::fmt::Error>)
        ensures
            r is Ok,
            final(self).out().last() == '}',
            final(self).out() == old(self).out() + (if old(self).spec_empty() {
                Seq::<char>::empty()
            } else if old(self).spec_indent_size() > 0 {
                indentation(old(self).spec_indent_size(), old(self).spec_outer_level())
            } else if old(self).spec_spacing() {
                seq![' ']
            } else {
                Seq::<char>::empty()
            }).push('}'),
    {
        let level = self.outer_level;
        let empty = self.empty;
        self.fmt.write_object_end(level, empty)
    }
}

/// A value written as JSON text: `to_string` gives its compact JSON.
#[derive(Debug, Clone, Copy)]
pub struct Json<T>(pub T);

impl<T: DisplayJson> Json<T> {
    /// The JSON text of the wrapped value, compact.
    pub fn to_string(&self) -> (s: String)
        ensures
            self.0.obeys_json() && self.0.json_result(0, false, 0) is Some ==> s@ == self.0.json_result(
                0,
                false,
                0,
            )->Some_0,
    {
        let mut f = JsonFormatter::new();
        let _ = self.0.fmt(&mut f);
        f.into_string()
    }
}

/// JSON written in place by a function (see [`json`]).
pub struct InplaceJson<F: Fn(&mut JsonFormatter) -> Result<(), core::fmt::Error>> {
    f: F,
}

impl<F: Fn(&mut JsonFormatter) -> Result<(), core::fmt::Error>> InplaceJson<F> {
    #[verifier::type_invariant]
    spec fn inv(self) -> bool {
        forall|x: &mut JsonFormatter| self.f.requires((x,))
    }

    /// The function that writes the JSON.
    pub closed spec fn function(&self) -> F {
        self.f
    }

    /// The JSON text that the function writes, starting from a formatter at level
    /// zero without indentation or spacing.
    pub fn to_string(&self) -> (s: String)
        ensures
            exists|x: &mut JsonFormatter, r: Result<(), core::fmt::Error>|
                #![trigger call_ensures(self.function(), (x,), r)]
                x.out() == Seq::<char>::empty() && x.spec_level() == 0 && x.spec_indent_size() == 0
                    && !x.spec_spacing() && call_ensures(self.function(), (x,), r)
                    && final(x).out() == s@,
    {
        let mut f = JsonFormatter::new();
        let _ = self.fmt(&mut f);
        f.into_string()
    }
}

impl<F: Fn(&mut JsonFormatter) -> Result<(), core::fmt::Error>> DisplayJson for InplaceJson<F> {
    /// Runs the function on `f`: the result is the function's.
    fn fmt(&self, f: &mut JsonFormatter) -> (r: Result<(), core::fmt::Error>)
        ensures
            exists|x: &mut JsonFormatter|
                #![trigger call_ensures(self.function(), (x,), r)]
                *x == *old(f) && call_ensures(self.function(), (x,), r) && *final(x) == *final(f),
    {
        proof {
            use_type_invariant(self);
        }
        let r = (self.f)(&mut *f);
        proof {
            assert(self.function() == self.f);
        }
        r
    }
}

/// JSON generated in place by `f`, which writes through a [`JsonFormatter`]; it can
/// set indentation and spacing for pretty printing.
pub fn json<F>(f: F) -> (j: InplaceJson<F>)
    where
        F: Fn(&mut JsonFormatter) -> Result<(), core::fmt::Error>,
    requires
        forall|x: &mut JsonFormatter| f.requires((x,)),
    ensures
        j.function() == f,
{
    InplaceJson { f }
}


} // verus!
