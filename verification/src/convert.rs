//! Converting raw values to Rust values: booleans, integers and strings.
use vstd::prelude::*;
use vstd::std_specs::convert::TryFromSpecImpl;
use vstd::string::{StrSliceExecFns, StringSliceAdditionalSpecFns};
use crate::error::{JsonParseError, error_matches};
use crate::grammar::parse_text;
use crate::kind::JsonValueKind;
use crate::raw::{RawJson, RawJsonMember, RawJsonValue, cow_into_string, kind_error};
use crate::format::Json;
use crate::strings::string_push_str;
use crate::structure::integer_lexeme;

verus! {

/// The value of the decimal digits `b`.
pub open spec fn digits_value(b: Seq<u8>) -> nat
    decreases b.len(),
{
    if b.len() == 0 {
        0
    } else {
        digits_value(b.drop_last()) * 10 + (b.last() - 0x30) as nat
    }
}

/// The value of the integer lexeme `b`: an optional minus sign, then decimal digits.
pub open spec fn lexeme_value(b: Seq<u8>) -> int {
    if b.len() > 0 && b[0] == 0x2d {
        -(digits_value(b.drop_first()) as int)
    } else {
        digits_value(b) as int
    }
}

/// How reading an integer lexeme into a type ranging over `[min, max]` goes: its
/// value when it lies in the range; else the message std's integer parsing gives (a
/// minus sign is no digit for an unsigned type).
pub open spec fn read_integer(b: Seq<u8>, min: int, max: int) -> Result<int, Seq<char>> {
    if min >= 0 && b.len() > 0 && b[0] == 0x2d {
        Err("invalid digit found in string"@)
    } else if lexeme_value(b) > max {
        Err("number too large to fit in target type"@)
    } else if lexeme_value(b) < min {
        Err("number too small to fit in target type"@)
    } else {
        Ok(lexeme_value(b))
    }
}

/// The bytes of `true`.
pub open spec fn true_bytes() -> Seq<u8> {
    seq![0x74u8, 0x72u8, 0x75u8, 0x65u8]
}

/// The bytes of `false`.
pub open spec fn false_bytes() -> Seq<u8> {
    seq![0x66u8, 0x61u8, 0x6cu8, 0x73u8, 0x65u8]
}

proof fn lemma_digits_value_mono(b: Seq<u8>, k: int)
    requires
        0 <= k <= b.len(),
        forall|i: int| 0 <= i < b.len() ==> 0x30 <= #[trigger] b[i] <= 0x39,
    ensures
        digits_value(b.subrange(0, k)) <= digits_value(b),
    decreases b.len() - k,
{
    if k < b.len() {
        lemma_digits_value_mono(b, k + 1);
        assert(b.subrange(0, k + 1).drop_last() =~= b.subrange(0, k));
    } else {
        assert(b.subrange(0, k) =~= b);
    }
}

/// Reads the integer lexeme `s` into a type ranging over `[min, max]` (see
/// [`read_integer`]).
fn read_integer_str(s: &str, min: i128, max: i128) -> (r: Result<i128, &'static str>)
    requires
        min <= 0 <= max,
        integer_lexeme(s.spec_bytes(), 0, s.spec_bytes().len() as int),
    ensures
        match read_integer(s.spec_bytes(), min as int, max as int) {
            Ok(v) => r == Ok::<i128, &'static str>(v as i128),
            Err(m) => r matches Err(x) && x@ == m,
        },
{
    let b = s.as_bytes();
    let len = b.len();
    let negative = len > 0 && b[0] == 0x2d;
    if negative && min >= 0 {
        return Err("invalid digit found in string");
    }
    let start: usize = if negative {
        1
    } else {
        0
    };
    let ghost d = b@.subrange(start as int, len as int);
    proof {
        if negative {
            assert(d =~= b@.drop_first());
        } else {
            assert(d =~= b@);
        }
    }
    let limit: u128 = if negative {
        (-(min + 1)) as u128 + 1
    } else {
        max as u128
    };
    let mut acc: u128 = 0;
    let mut i = start;
    while i < len
        invariant
            start <= i <= len,
            len == b@.len(),
            d == b@.subrange(start as int, len as int),
            b@ == s.spec_bytes(),
            negative ==> d == b@.drop_first() && b@.len() > 0 && b@[0] == 0x2d && min < 0,
            !negative ==> d == b@ && !(b@.len() > 0 && b@[0] == 0x2d),
            min <= 0 <= max,
            negative ==> limit == -min,
            !negative ==> limit == max,
            start == (if negative { 1usize } else { 0usize }),
            forall|k: int| start <= k < len ==> 0x30 <= #[trigger] b@[k] <= 0x39,
            acc == digits_value(b@.subrange(start as int, i as int)),
            acc <= limit,
        decreases len - i,
    {
        let digit = (b[i] - 0x30) as u128;
        proof {
            assert(b@.subrange(start as int, i + 1).drop_last() =~= b@.subrange(start as int, i as int));
        }
        let next = match acc.checked_mul(10) {
            Some(x) => x.checked_add(digit),
            None => None,
        };
        match next {
            Some(x) if x <= limit => {
                acc = x;
            },
            _ => {
                proof {
                    let whole = d;
                    assert forall|k: int| 0 <= k < whole.len() implies 0x30 <= #[trigger] whole[k]
                        <= 0x39 by {
                        assert(whole[k] == b@[start + k]);
                    }
                    lemma_digits_value_mono(whole, i + 1 - start);
                    assert(whole.subrange(0, i + 1 - start) =~= b@.subrange(start as int, i + 1));
                    assert(digits_value(d) > limit);
                    if negative {
                        assert(lexeme_value(b@) == -(digits_value(d) as int));
                        assert(lexeme_value(b@) < min);
                    }
                }
                if negative {
                    return Err("number too small to fit in target type");
                } else {
                    return Err("number too large to fit in target type");
                }
            },
        }
        i = i + 1;
    }
    proof {
        assert(b@.subrange(start as int, i as int) =~= d);
    }
    if negative {
        if acc == 0 {
            Ok(0)
        } else {
            Ok(-((acc - 1) as i128) - 1)
        }
    } else {
        Ok(acc as i128)
    }
}

impl<'text, 'raw> RawJsonValue<'text, 'raw> {
    /// The integer this value holds, when it is a JSON integer that lies in
    /// `[min, max]`.
    fn to_integer(self, min: i128, max: i128) -> (r: Result<i128, JsonParseError>)
        requires
            min <= 0 <= max,
        ensures
            self.entry().kind != JsonValueKind::Integer ==> (r matches Err(e) && kind_error(
                e,
                self.entry(),
                "Integer"@,
            )),
            self.entry().kind == JsonValueKind::Integer ==> match read_integer(
                self.bytes().subrange(self.entry().start, self.entry().end),
                min as int,
                max as int,
            ) {
                Ok(v) => r == Ok::<i128, JsonParseError>(v as i128),
                Err(m) => (r matches Err(e) && e == (JsonParseError::InvalidValue {
                    kind: self.entry().kind,
                    position: self.entry().start as usize,
                    error: e->error,
                }) && e->error@ == m),
            },
    {
        let s = match self.as_integer_str() {
            Ok(s) => s,
            Err(e) => return Err(e),
        };
        match read_integer_str(s, min, max) {
            Ok(v) => Ok(v),
            Err(m) => {
                let mut msg = String::new();
                string_push_str(&mut msg, m);
                Err(self.invalid(msg))
            },
        }
    }
}

/// `r` is how converting `v` into a type ranging over `[min, max]` goes: the error of a
/// value that is no JSON integer; the integer when it lies in the range; else the
/// error that carries std's message.
pub open spec fn integer_result(
    v: RawJsonValue,
    min: int,
    max: int,
    r: Result<int, JsonParseError>,
) -> bool {
    if v.entry().kind != JsonValueKind::Integer {
        r matches Err(e) && kind_error(e, v.entry(), "Integer"@)
    } else {
        match read_integer(v.bytes().subrange(v.entry().start, v.entry().end), min, max) {
            Ok(x) => r == Ok::<int, JsonParseError>(x),
            Err(m) => (r matches Err(e) && e == (JsonParseError::InvalidValue {
                kind: v.entry().kind,
                position: v.entry().start as usize,
                error: e->error,
            }) && e->error@ == m),
        }
    }
}

/// The integer result as an `int`.
pub open spec fn as_int_result<T: Integer>(r: Result<T, JsonParseError>) -> Result<int, JsonParseError> {
    match r {
        Ok(x) => Ok(x as int),
        Err(e) => Err(e),
    }
}

impl<'text, 'raw> TryFrom<RawJsonValue<'text, 'raw>> for i8 {
    type Error = JsonParseError;

    fn try_from(value: RawJsonValue<'text, 'raw>) -> (r: Result<i8, JsonParseError>)
        ensures
            integer_result(value, i8::MIN as int, i8::MAX as int, as_int_result(r)),
    {
        match value.to_integer(i8::MIN as i128, i8::MAX as i128) {
            Ok(v) => Ok(v as i8),
            Err(e) => Err(e),
        }
    }
}

impl<'text, 'raw> TryFromSpecImpl<RawJsonValue<'text, 'raw>> for i8 {
    open spec fn obeys_try_from_spec() -> bool {
        false
    }

    open spec fn try_from_spec(v: RawJsonValue<'text, 'raw>) -> Result<i8, JsonParseError> {
        arbitrary()
    }
}

impl<'text, 'raw> TryFrom<RawJsonValue<'text, 'raw>> for i16 {
    type Error = JsonParseError;

    fn try_from(value: RawJsonValue<'text, 'raw>) -> (r: Result<i16, JsonParseError>)
        ensures
            integer_result(value, i16::MIN as int, i16::MAX as int, as_int_result(r)),
    {
        match value.to_integer(i16::MIN as i128, i16::MAX as i128) {
            Ok(v) => Ok(v as i16),
            Err(e) => Err(e),
        }
    }
}

impl<'text, 'raw> TryFromSpecImpl<RawJsonValue<'text, 'raw>> for i16 {
    open spec fn obeys_try_from_spec() -> bool {
        false
    }

    open spec fn try_from_spec(v: RawJsonValue<'text, 'raw>) -> Result<i16, JsonParseError> {
        arbitrary()
    }
}

impl<'text, 'raw> TryFrom<RawJsonValue<'text, 'raw>> for i32 {
    type Error = JsonParseError;

    fn try_from(value: RawJsonValue<'text, 'raw>) -> (r: Result<i32, JsonParseError>)
        ensures
            integer_result(value, i32::MIN as int, i32::MAX as int, as_int_result(r)),
    {
        match value.to_integer(i32::MIN as i128, i32::MAX as i128) {
            Ok(v) => Ok(v as i32),
            Err(e) => Err(e),
        }
    }
}

impl<'text, 'raw> TryFromSpecImpl<RawJsonValue<'text, 'raw>> for i32 {
    open spec fn obeys_try_from_spec() -> bool {
        false
    }

    open spec fn try_from_spec(v: RawJsonValue<'text, 'raw>) -> Result<i32, JsonParseError> {
        arbitrary()
    }
}

impl<'text, 'raw> TryFrom<RawJsonValue<'text, 'raw>> for i64 {
    type Error = JsonParseError;

    fn try_from(value: RawJsonValue<'text, 'raw>) -> (r: Result<i64, JsonParseError>)
        ensures
            integer_result(value, i64::MIN as int, i64::MAX as int, as_int_result(r)),
    {
        match value.to_integer(i64::MIN as i128, i64::MAX as i128) {
            Ok(v) => Ok(v as i64),
            Err(e) => Err(e),
        }
    }
}

impl<'text, 'raw> TryFromSpecImpl<RawJsonValue<'text, 'raw>> for i64 {
    open spec fn obeys_try_from_spec() -> bool {
        false
    }

    open spec fn try_from_spec(v: RawJsonValue<'text, 'raw>) -> Result<i64, JsonParseError> {
        arbitrary()
    }
}

impl<'text, 'raw> TryFrom<RawJsonValue<'text, 'raw>> for isize {
    type Error = JsonParseError;

    fn try_from(value: RawJsonValue<'text, 'raw>) -> (r: Result<isize, JsonParseError>)
        ensures
            integer_result(value, isize::MIN as int, isize::MAX as int, as_int_result(r)),
    {
        match value.to_integer(isize::MIN as i128, isize::MAX as i128) {
            Ok(v) => Ok(v as isize),
            Err(e) => Err(e),
        }
    }
}

impl<'text, 'raw> TryFromSpecImpl<RawJsonValue<'text, 'raw>> for isize {
    open spec fn obeys_try_from_spec() -> bool {
        false
    }

    open spec fn try_from_spec(v: RawJsonValue<'text, 'raw>) -> Result<isize, JsonParseError> {
        arbitrary()
    }
}

impl<'text, 'raw> TryFrom<RawJsonValue<'text, 'raw>> for u8 {
    type Error = JsonParseError;

    fn try_from(value: RawJsonValue<'text, 'raw>) -> (r: Result<u8, JsonParseError>)
        ensures
            integer_result(value, u8::MIN as int, u8::MAX as int, as_int_result(r)),
    {
        match value.to_integer(u8::MIN as i128, u8::MAX as i128) {
            Ok(v) => Ok(v as u8),
            Err(e) => Err(e),
        }
    }
}

impl<'text, 'raw> TryFromSpecImpl<RawJsonValue<'text, 'raw>> for u8 {
    open spec fn obeys_try_from_spec() -> bool {
        false
    }

    open spec fn try_from_spec(v: RawJsonValue<'text, 'raw>) -> Result<u8, JsonParseError> {
        arbitrary()
    }
}

impl<'text, 'raw> TryFrom<RawJsonValue<'text, 'raw>> for u16 {
    type Error = JsonParseError;

    fn try_from(value: RawJsonValue<'text, 'raw>) -> (r: Result<u16, JsonParseError>)
        ensures
            integer_result(value, u16::MIN as int, u16::MAX as int, as_int_result(r)),
    {
        match value.to_integer(u16::MIN as i128, u16::MAX as i128) {
            Ok(v) => Ok(v as u16),
            Err(e) => Err(e),
        }
    }
}

impl<'text, 'raw> TryFromSpecImpl<RawJsonValue<'text, 'raw>> for u16 {
    open spec fn obeys_try_from_spec() -> bool {
        false
    }

    open spec fn try_from_spec(v: RawJsonValue<'text, 'raw>) -> Result<u16, JsonParseError> {
        arbitrary()
    }
}

impl<'text, 'raw> TryFrom<RawJsonValue<'text, 'raw>> for u32 {
    type Error = JsonParseError;

    fn try_from(value: RawJsonValue<'text, 'raw>) -> (r: Result<u32, JsonParseError>)
        ensures
            integer_result(value, u32::MIN as int, u32::MAX as int, as_int_result(r)),
    {
        match value.to_integer(u32::MIN as i128, u32::MAX as i128) {
            Ok(v) => Ok(v as u32),
            Err(e) => Err(e),
        }
    }
}

impl<'text, 'raw> TryFromSpecImpl<RawJsonValue<'text, 'raw>> for u32 {
    open spec fn obeys_try_from_spec() -> bool {
        false
    }

    open spec fn try_from_spec(v: RawJsonValue<'text, 'raw>) -> Result<u32, JsonParseError> {
        arbitrary()
    }
}

impl<'text, 'raw> TryFrom<RawJsonValue<'text, 'raw>> for u64 {
    type Error = JsonParseError;

    fn try_from(value: RawJsonValue<'text, 'raw>) -> (r: Result<u64, JsonParseError>)
        ensures
            integer_result(value, u64::MIN as int, u64::MAX as int, as_int_result(r)),
    {
        match value.to_integer(u64::MIN as i128, u64::MAX as i128) {
            Ok(v) => Ok(v as u64),
            Err(e) => Err(e),
        }
    }
}

impl<'text, 'raw> TryFromSpecImpl<RawJsonValue<'text, 'raw>> for u64 {
    open spec fn obeys_try_from_spec() -> bool {
        false
    }

    open spec fn try_from_spec(v: RawJsonValue<'text, 'raw>) -> Result<u64, JsonParseError> {
        arbitrary()
    }
}

impl<'text, 'raw> TryFrom<RawJsonValue<'text, 'raw>> for usize {
    type Error = JsonParseError;

    fn try_from(value: RawJsonValue<'text, 'raw>) -> (r: Result<usize, JsonParseError>)
        ensures
            integer_result(value, usize::MIN as int, usize::MAX as int, as_int_result(r)),
    {
        match value.to_integer(usize::MIN as i128, usize::MAX as i128) {
            Ok(v) => Ok(v as usize),
            Err(e) => Err(e),
        }
    }
}

impl<'text, 'raw> TryFromSpecImpl<RawJsonValue<'text, 'raw>> for usize {
    open spec fn obeys_try_from_spec() -> bool {
        false
    }

    open spec fn try_from_spec(v: RawJsonValue<'text, 'raw>) -> Result<usize, JsonParseError> {
        arbitrary()
    }
}

/// The reason std gives for a boolean lexeme that is neither `true` nor `false`.
pub open spec fn bool_message() -> Seq<char> {
    "provided string was not `true` or `false`"@
}

impl<'text, 'raw> TryFrom<RawJsonValue<'text, 'raw>> for bool {
    type Error = JsonParseError;

    fn try_from(value: RawJsonValue<'text, 'raw>) -> (r: Result<bool, JsonParseError>)
        ensures
            value.entry().kind != JsonValueKind::Boolean ==> (r matches Err(e) && kind_error(
                e,
                value.entry(),
                "Boolean"@,
            )),
            value.entry().kind == JsonValueKind::Boolean ==> ({
                let b = value.bytes().subrange(value.entry().start, value.entry().end);
                if b == true_bytes() {
                    r == Ok::<bool, JsonParseError>(true)
                } else if b == false_bytes() {
                    r == Ok::<bool, JsonParseError>(false)
                } else {
                    r matches Err(e) && e == (JsonParseError::InvalidValue {
                        kind: value.entry().kind,
                        position: value.entry().start as usize,
                        error: e->error,
                    }) && e->error@ == bool_message()
                }
            }),
    {
        let s = match value.as_boolean_str() {
            Ok(s) => s,
            Err(e) => return Err(e),
        };
        let b = s.as_bytes();
        if b.len() == 4 && b[0] == 0x74 && b[1] == 0x72 && b[2] == 0x75 && b[3] == 0x65 {
            proof {
                assert(b@ =~= true_bytes());
            }
            Ok(true)
        } else if b.len() == 5 && b[0] == 0x66 && b[1] == 0x61 && b[2] == 0x6c && b[3] == 0x73
            && b[4] == 0x65 {
            proof {
                assert(b@ =~= false_bytes());
            }
            Ok(false)
        } else {
            proof {
                assert(b@ != true_bytes()) by {
                    if b@ == true_bytes() {
                        assert(b@.len() == 4);
                        assert(b@[0] == 0x74 && b@[1] == 0x72 && b@[2] == 0x75 && b@[3] == 0x65);
                    }
                }
                assert(b@ != false_bytes()) by {
                    if b@ == false_bytes() {
                        assert(b@.len() == 5);
                        assert(b@[0] == 0x66 && b@[1] == 0x61 && b@[2] == 0x6c && b@[3] == 0x73
                            && b@[4] == 0x65);
                    }
                }
            }
            let mut msg = String::new();
            string_push_str(&mut msg, "provided string was not `true` or `false`");
            Err(value.invalid(msg))
        }
    }
}

impl<'text, 'raw> TryFromSpecImpl<RawJsonValue<'text, 'raw>> for bool {
    open spec fn obeys_try_from_spec() -> bool {
        false
    }

    open spec fn try_from_spec(v: RawJsonValue<'text, 'raw>) -> Result<bool, JsonParseError> {
        arbitrary()
    }
}

impl<'text, 'raw> TryFrom<RawJsonValue<'text, 'raw>> for String {
    type Error = JsonParseError;

    fn try_from(value: RawJsonValue<'text, 'raw>) -> (r: Result<String, JsonParseError>)
        ensures
            value.entry().kind == JsonValueKind::String ==> (r matches Ok(s) && s@
                == value.unquoted()),
            value.entry().kind != JsonValueKind::String ==> (r matches Err(e) && kind_error(
                e,
                value.entry(),
                "String"@,
            )),
    {
        match value.to_unquoted_string_str() {
            Ok(c) => Ok(cow_into_string(c)),
            Err(e) => Err(e),
        }
    }
}

impl<'text, 'raw> TryFromSpecImpl<RawJsonValue<'text, 'raw>> for String {
    open spec fn obeys_try_from_spec() -> bool {
        false
    }

    open spec fn try_from_spec(v: RawJsonValue<'text, 'raw>) -> Result<String, JsonParseError> {
        arbitrary()
    }
}

/// Why a string is no single character: it is empty, or it has more than one.
pub open spec fn char_message(len: nat) -> Seq<char> {
    if len == 0 {
        "expected a string with exactly one character, but got an empty string"@
    } else {
        "expected a string with exactly one character, but got multiple characters"@
    }
}

impl<'text, 'raw> TryFrom<RawJsonValue<'text, 'raw>> for char {
    type Error = JsonParseError;

    /// The single character of a JSON string.
    fn try_from(value: RawJsonValue<'text, 'raw>) -> (r: Result<char, JsonParseError>)
        ensures
            value.entry().kind != JsonValueKind::String ==> (r matches Err(e) && kind_error(
                e,
                value.entry(),
                "String"@,
            )),
            value.entry().kind == JsonValueKind::String ==> (if value.unquoted().len() == 1 {
                r == Ok::<char, JsonParseError>(value.unquoted()[0])
            } else {
                r matches Err(e) && e == (JsonParseError::InvalidValue {
                    kind: value.entry().kind,
                    position: value.entry().start as usize,
                    error: e->error,
                }) && e->error@ == char_message(value.unquoted().len())
            }),
    {
        let s = match value.to_unquoted_string_str() {
            Ok(c) => cow_into_string(c),
            Err(e) => return Err(e),
        };
        let n = s.as_str().unicode_len();
        if n == 1 {
            Ok(s.as_str().get_char(0))
        } else {
            let mut msg = String::new();
            if n == 0 {
                string_push_str(
                    &mut msg,
                    "expected a string with exactly one character, but got an empty string",
                );
            } else {
                string_push_str(
                    &mut msg,
                    "expected a string with exactly one character, but got multiple characters",
                );
            }
            proof {
                assert(msg@ =~= char_message(value.unquoted().len()));
            }
            Err(value.invalid(msg))
        }
    }
}

impl<'text, 'raw> TryFromSpecImpl<RawJsonValue<'text, 'raw>> for char {
    open spec fn obeys_try_from_spec() -> bool {
        false
    }

    open spec fn try_from_spec(v: RawJsonValue<'text, 'raw>) -> Result<char, JsonParseError> {
        arbitrary()
    }
}

impl<'text, 'raw> TryFrom<RawJsonValue<'text, 'raw>> for i128 {
    type Error = JsonParseError;

    fn try_from(value: RawJsonValue<'text, 'raw>) -> (r: Result<i128, JsonParseError>)
        ensures
            integer_result(value, i128::MIN as int, i128::MAX as int, as_int_result(r)),
    {
        value.to_integer(i128::MIN, i128::MAX)
    }
}

impl<'text, 'raw> TryFromSpecImpl<RawJsonValue<'text, 'raw>> for i128 {
    open spec fn obeys_try_from_spec() -> bool {
        false
    }

    open spec fn try_from_spec(v: RawJsonValue<'text, 'raw>) -> Result<i128, JsonParseError> {
        arbitrary()
    }
}

impl<'text, 'raw, T: TryFrom<RawJsonValue<'text, 'raw>, Error = JsonParseError>> TryFrom<
    RawJsonValue<'text, 'raw>,
> for Option<T> {
    type Error = JsonParseError;

    /// `None` for a JSON null, else the value converted.
    fn try_from(value: RawJsonValue<'text, 'raw>) -> (r: Result<Option<T>, JsonParseError>)
        ensures
            value.entry().kind == JsonValueKind::Null ==> r matches Ok(None),
            value.entry().kind != JsonValueKind::Null ==> !(r matches Ok(None)),
    {
        if value.kind() == JsonValueKind::Null {
            Ok(None)
        } else {
            match T::try_from(value) {
                Ok(x) => Ok(Some(x)),
                Err(e) => Err(e),
            }
        }
    }
}

impl<'text, 'raw, T: TryFrom<RawJsonValue<'text, 'raw>, Error = JsonParseError>> TryFromSpecImpl<
    RawJsonValue<'text, 'raw>,
> for Option<T> {
    open spec fn obeys_try_from_spec() -> bool {
        false
    }

    open spec fn try_from_spec(v: RawJsonValue<'text, 'raw>) -> Result<Option<T>, JsonParseError> {
        arbitrary()
    }
}

impl<'text, 'raw> TryFrom<RawJsonValue<'text, 'raw>> for () {
    type Error = JsonParseError;

    fn try_from(value: RawJsonValue<'text, 'raw>) -> (r: Result<(), JsonParseError>)
        ensures
            value.entry().kind == JsonValueKind::Null ==> r is Ok,
            value.entry().kind != JsonValueKind::Null ==> (r matches Err(e) && kind_error(
                e,
                value.entry(),
                "Null"@,
            )),
    {
        if value.kind() == JsonValueKind::Null {
            Ok(())
        } else {
            let mut msg = String::new();
            string_push_str(&mut msg, "expected ");
            string_push_str(&mut msg, "Null");
            string_push_str(&mut msg, ", but found ");
            string_push_str(&mut msg, value.kind().debug_name());
            proof {
                assert(msg@ =~= crate::raw::expected_message("Null"@, value.entry().kind));
            }
            Err(value.invalid(msg))
        }
    }
}

impl<'text, 'raw> TryFromSpecImpl<RawJsonValue<'text, 'raw>> for () {
    open spec fn obeys_try_from_spec() -> bool {
        false
    }

    open spec fn try_from_spec(v: RawJsonValue<'text, 'raw>) -> Result<(), JsonParseError> {
        arbitrary()
    }
}

impl<'text, 'raw, T: TryFrom<RawJsonValue<'text, 'raw>, Error = JsonParseError>> TryFrom<
    RawJsonValue<'text, 'raw>,
> for Vec<T> {
    type Error = JsonParseError;

    /// The elements of a JSON array, each converted; the first error stops.
    fn try_from(value: RawJsonValue<'text, 'raw>) -> (r: Result<Vec<T>, JsonParseError>)
        ensures
            value.entry().kind != JsonValueKind::Array ==> (r matches Err(e) && kind_error(
                e,
                value.entry(),
                "Array"@,
            )),
            r matches Ok(v) ==> v@.len() == crate::raw::children(
                value.entries(),
                value.spec_index(),
            ).len(),
    {
        let items = match value.to_array() {
            Ok(items) => items,
            Err(e) => return Err(e),
        };
        let mut out: Vec<T> = Vec::new();
        let mut k: usize = 0;
        while k < items.len()
            invariant
                value.entry().kind == JsonValueKind::Array,
                k <= items@.len(),
                out@.len() == k,
            decreases items@.len() - k,
        {
            match T::try_from(items[k]) {
                Ok(x) => out.push(x),
                Err(e) => return Err(e),
            }
            k = k + 1;
        }
        Ok(out)
    }
}

impl<'text, 'raw, T: TryFrom<RawJsonValue<'text, 'raw>, Error = JsonParseError>> TryFromSpecImpl<
    RawJsonValue<'text, 'raw>,
> for Vec<T> {
    open spec fn obeys_try_from_spec() -> bool {
        false
    }

    open spec fn try_from_spec(v: RawJsonValue<'text, 'raw>) -> Result<Vec<T>, JsonParseError> {
        arbitrary()
    }
}

impl<'text, 'raw, T: TryFrom<RawJsonValue<'text, 'raw>, Error = JsonParseError>> TryFrom<
    RawJsonValue<'text, 'raw>,
> for std::collections::VecDeque<T> {
    type Error = JsonParseError;

    /// The elements of a JSON array, each converted; the first error stops.
    fn try_from(value: RawJsonValue<'text, 'raw>) -> (r: Result<std::collections::VecDeque<T>, JsonParseError>)
        ensures
            value.entry().kind != JsonValueKind::Array ==> (r matches Err(e) && kind_error(
                e,
                value.entry(),
                "Array"@,
            )),
            r matches Ok(v) ==> v@.len() == crate::raw::children(
                value.entries(),
                value.spec_index(),
            ).len(),
    {
        let items = match value.to_array() {
            Ok(items) => items,
            Err(e) => return Err(e),
        };
        let mut out: std::collections::VecDeque<T> = std::collections::VecDeque::new();
        let mut k: usize = 0;
        while k < items.len()
            invariant
                value.entry().kind == JsonValueKind::Array,
                k <= items@.len(),
                out@.len() == k,
            decreases items@.len() - k,
        {
            match T::try_from(items[k]) {
                Ok(x) => out.push_back(x),
                Err(e) => return Err(e),
            }
            k = k + 1;
        }
        Ok(out)
    }
}

impl<'text, 'raw, T: TryFrom<RawJsonValue<'text, 'raw>, Error = JsonParseError>> TryFromSpecImpl<
    RawJsonValue<'text, 'raw>,
> for std::collections::VecDeque<T> {
    open spec fn obeys_try_from_spec() -> bool {
        false
    }

    open spec fn try_from_spec(v: RawJsonValue<'text, 'raw>) -> Result<std::collections::VecDeque<T>, JsonParseError> {
        arbitrary()
    }
}

impl<'text, 'raw, T: TryFrom<RawJsonValue<'text, 'raw>, Error = JsonParseError>> TryFrom<
    RawJsonValue<'text, 'raw>,
> for std::rc::Rc<T> {
    type Error = JsonParseError;

    /// The value converted, in an `Rc`.
    fn try_from(value: RawJsonValue<'text, 'raw>) -> (r: Result<std::rc::Rc<T>, JsonParseError>)
        ensures
            <T as vstd::std_specs::convert::TryFromSpec<RawJsonValue<'text, 'raw>>>::obeys_try_from_spec()
                ==> match <T as vstd::std_specs::convert::TryFromSpec<RawJsonValue<'text, 'raw>>>::try_from_spec(value) {
                Ok(x) => r matches Ok(p) && *p == x,
                Err(e) => r == Err::<std::rc::Rc<T>, JsonParseError>(e),
            },
    {
        match T::try_from(value) {
            Ok(x) => Ok(std::rc::Rc::new(x)),
            Err(e) => Err(e),
        }
    }
}

impl<'text, 'raw, T: TryFrom<RawJsonValue<'text, 'raw>, Error = JsonParseError>> TryFromSpecImpl<
    RawJsonValue<'text, 'raw>,
> for std::rc::Rc<T> {
    open spec fn obeys_try_from_spec() -> bool {
        false
    }

    open spec fn try_from_spec(v: RawJsonValue<'text, 'raw>) -> Result<std::rc::Rc<T>, JsonParseError> {
        arbitrary()
    }
}

impl<'text, 'raw, T: TryFrom<RawJsonValue<'text, 'raw>, Error = JsonParseError>> TryFrom<
    RawJsonValue<'text, 'raw>,
> for std::sync::Arc<T> {
    type Error = JsonParseError;

    /// The value converted, in an `Arc`.
    fn try_from(value: RawJsonValue<'text, 'raw>) -> (r: Result<std::sync::Arc<T>, JsonParseError>)
        ensures
            <T as vstd::std_specs::convert::TryFromSpec<RawJsonValue<'text, 'raw>>>::obeys_try_from_spec()
                ==> match <T as vstd::std_specs::convert::TryFromSpec<RawJsonValue<'text, 'raw>>>::try_from_spec(value) {
                Ok(x) => r matches Ok(p) && *p == x,
                Err(e) => r == Err::<std::sync::Arc<T>, JsonParseError>(e),
            },
    {
        match T::try_from(value) {
            Ok(x) => Ok(std::sync::Arc::new(x)),
            Err(e) => Err(e),
        }
    }
}

impl<'text, 'raw, T: TryFrom<RawJsonValue<'text, 'raw>, Error = JsonParseError>> TryFromSpecImpl<
    RawJsonValue<'text, 'raw>,
> for std::sync::Arc<T> {
    open spec fn obeys_try_from_spec() -> bool {
        false
    }

    open spec fn try_from_spec(v: RawJsonValue<'text, 'raw>) -> Result<std::sync::Arc<T>, JsonParseError> {
        arbitrary()
    }
}

impl<'text, 'raw, 'a, T: TryFrom<RawJsonValue<'text, 'raw>, Error = JsonParseError>> TryFrom<
    RawJsonMember<'text, 'raw, 'a>,
> for Option<T> {
    type Error = JsonParseError;

    /// The member's value converted, or `None` when the object has no member so named.
    fn try_from(value: RawJsonMember<'text, 'raw, 'a>) -> (r: Result<Option<T>, JsonParseError>)
        ensures
            value.spec_member() is None ==> r matches Ok(None),
            <T as vstd::std_specs::convert::TryFromSpec<RawJsonValue<'text, 'raw>>>::obeys_try_from_spec()
                ==> (value.spec_member() matches Some(v) ==> match <T as vstd::std_specs::convert::TryFromSpec<
                RawJsonValue<'text, 'raw>,
            >>::try_from_spec(v) {
                Ok(x) => r matches Ok(Some(y)) && y == x,
                Err(e) => r matches Err(e2) && e2 == e,
            }),
    {
        match value.get() {
            Some(v) => match T::try_from(v) {
                Ok(x) => Ok(Some(x)),
                Err(e) => Err(e),
            },
            None => Ok(None),
        }
    }
}

impl<'text, 'raw, 'a, T: TryFrom<RawJsonValue<'text, 'raw>, Error = JsonParseError>> TryFromSpecImpl<
    RawJsonMember<'text, 'raw, 'a>,
> for Option<T> {
    open spec fn obeys_try_from_spec() -> bool {
        false
    }

    open spec fn try_from_spec(v: RawJsonMember<'text, 'raw, 'a>) -> Result<Option<T>, JsonParseError> {
        arbitrary()
    }
}

impl<T> core::str::FromStr for Json<T> where
    T: for <'text, 'raw>TryFrom<RawJsonValue<'text, 'raw>, Error = JsonParseError>,
 {
    type Err = JsonParseError;

    fn from_str(s: &str) -> (r: Result<Self, JsonParseError>)
        ensures
            match parse_text(s.spec_bytes(), false) {
                Err(e) => (r matches Err(x) && error_matches(x, e)),
                Ok((vals, _)) => exists|v: RawJsonValue<'static, 'static>|
                    #![trigger <T as vstd::std_specs::convert::TryFromSpec<RawJsonValue<'static, 'static>>>::try_from_spec(v)]
                    v.bytes() == s.spec_bytes() && v.entries() == vals && v.spec_index() == 0 && (
                    <T as vstd::std_specs::convert::TryFromSpec<RawJsonValue<'static, 'static>>>::obeys_try_from_spec()
                        ==> match <T as vstd::std_specs::convert::TryFromSpec<RawJsonValue<'static, 'static>>>::try_from_spec(v) {
                        Ok(x) => r matches Ok(j) && j.0 == x,
                        Err(e) => r matches Err(y) && y == e,
                    }),
            },
    {
        let raw = match RawJson::parse(s) {
            Ok(raw) => raw,
            Err(e) => return Err(e),
        };
        let value = raw.value();
        proof {
            assert(value.bytes() == s.spec_bytes());
        }
        let conv = T::try_from(value);
        proof {
            assert(<T as vstd::std_specs::convert::TryFromSpec<RawJsonValue<'_, '_>>>::obeys_try_from_spec()
                ==> conv == <T as vstd::std_specs::convert::TryFromSpec<RawJsonValue<'_, '_>>>::try_from_spec(value));
        }
        match conv {
            Ok(v) => Ok(Json(v)),
            Err(e) => Err(e),
        }
    }
}

} // verus!
