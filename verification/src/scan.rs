//! Scanning runs of bytes eight at a time, using bitwise operations on a `u64`
//! (SIMD within a register), to find the bytes that need special handling in JSON
//! strings: control characters (< 0x20), the double quote (0x22) and the backslash
//! (0x5C).
use vstd::prelude::*;

verus! {

/// A byte that stands for itself inside a JSON string and is ASCII.
pub open spec fn is_plain_ascii(b: u8) -> bool {
    0x20 <= b < 0x80 && b != 0x22 && b != 0x5c
}

/// The eight bytes of `w`, least significant first.
pub open spec fn byte_of(w: u64, j: int) -> u8 {
    ((w >> ((8 * j) as u64)) & 0xff) as u8
}

/// Bit 7 of each byte of `w` that is not plain ASCII, as computed without branching.
pub open spec fn spec_non_plain_mask(w: u64) -> u64 {
    let non_ascii = w & 0x8080808080808080u64;
    let control = (((w + 0x6060606060606060u64) as u64) ^ 0x8080808080808080u64)
        & 0x8080808080808080u64;
    let xq = w ^ 0x2222222222222222u64;
    let quote = ((xq - 0x0101010101010101u64) as u64) & !xq & 0x8080808080808080u64;
    let xb = w ^ 0x5c5c5c5c5c5c5c5cu64;
    let bslash = ((xb - 0x0101010101010101u64) as u64) & !xb & 0x8080808080808080u64;
    non_ascii | control | quote | bslash
}

pub open spec fn all_plain(w: u64) -> bool {
    is_plain_ascii(byte_of(w, 0)) && is_plain_ascii(byte_of(w, 1)) && is_plain_ascii(byte_of(w, 2))
        && is_plain_ascii(byte_of(w, 3)) && is_plain_ascii(byte_of(w, 4)) && is_plain_ascii(
        byte_of(w, 5),
    ) && is_plain_ascii(byte_of(w, 6)) && is_plain_ascii(byte_of(w, 7))
}

proof fn lemma_mask_zero_iff_all_plain(w: u64)
    ensures
        spec_non_plain_mask(w) == 0 <==> all_plain(w),
{
    assert(spec_non_plain_mask(w) == 0 <==> all_plain(w)) by (bit_vector);
}

/// The bytes of `w` below byte `k` are plain ASCII.
pub open spec fn plain_below(w: u64, k: u64) -> bool {
    &&& (0 < k ==> is_plain_ascii(byte_of(w, 0)))
    &&& (1 < k ==> is_plain_ascii(byte_of(w, 1)))
    &&& (2 < k ==> is_plain_ascii(byte_of(w, 2)))
    &&& (3 < k ==> is_plain_ascii(byte_of(w, 3)))
    &&& (4 < k ==> is_plain_ascii(byte_of(w, 4)))
    &&& (5 < k ==> is_plain_ascii(byte_of(w, 5)))
    &&& (6 < k ==> is_plain_ascii(byte_of(w, 6)))
    &&& (7 < k ==> is_plain_ascii(byte_of(w, 7)))
}

pub open spec fn byte_at(w: u64, k: u64) -> u8 {
    ((w >> (8 * k)) & 0xff) as u8
}

proof fn lemma_first_set_bit(w: u64, k: u64)
    requires
        k < 8,
        plain_below(w, k),
        !is_plain_ascii(byte_at(w, k)),
    ensures
        (spec_non_plain_mask(w) >> (8 * k + 7)) & 1 == 1,
        spec_non_plain_mask(w) & (((1u64 << (8 * k + 7)) - 1) as u64) == 0,
{
    assert(k < 8 && plain_below(w, k) && !is_plain_ascii(byte_at(w, k)) ==> (spec_non_plain_mask(w) >> (8 * k + 7)) & 1 == 1 && spec_non_plain_mask(w) & (((1u64 << (8 * k + 7)) - 1) as u64) == 0) by (bit_vector);
}

/// The index of the first byte of `w` that is not plain ASCII (8 if there is none).
pub open spec fn first_non_plain(w: u64) -> u64 {
    if !is_plain_ascii(byte_at(w, 0)) {
        0
    } else if !is_plain_ascii(byte_at(w, 1)) {
        1
    } else if !is_plain_ascii(byte_at(w, 2)) {
        2
    } else if !is_plain_ascii(byte_at(w, 3)) {
        3
    } else if !is_plain_ascii(byte_at(w, 4)) {
        4
    } else if !is_plain_ascii(byte_at(w, 5)) {
        5
    } else if !is_plain_ascii(byte_at(w, 6)) {
        6
    } else if !is_plain_ascii(byte_at(w, 7)) {
        7
    } else {
        8
    }
}

proof fn lemma_first_non_plain(w: u64)
    ensures
        first_non_plain(w) <= 8,
        plain_below(w, first_non_plain(w)),
        first_non_plain(w) < 8 ==> !is_plain_ascii(byte_at(w, first_non_plain(w))),
        first_non_plain(w) == 8 <==> all_plain(w),
{
    assert(forall|j: int| 0 <= j < 8 ==> byte_of(w, j) == byte_at(w, j as u64)) by {
        assert(byte_of(w, 0) == byte_at(w, 0));
        assert(byte_of(w, 1) == byte_at(w, 1));
        assert(byte_of(w, 2) == byte_at(w, 2));
        assert(byte_of(w, 3) == byte_at(w, 3));
        assert(byte_of(w, 4) == byte_at(w, 4));
        assert(byte_of(w, 5) == byte_at(w, 5));
        assert(byte_of(w, 6) == byte_at(w, 6));
        assert(byte_of(w, 7) == byte_at(w, 7));
    }
}

/// Returns `true` if the byte is plain ASCII for JSON strings.
pub fn is_plain_ascii_byte(b: u8) -> (r: bool)
    ensures
        r == is_plain_ascii(b),
{
    0x20 <= b && b < 0x80 && b != 0x22 && b != 0x5c
}

/// Builds a mask with bit 7 set for each byte in `w` that is not plain ASCII.
pub fn non_plain_mask(w: u64) -> (m: u64)
    ensures
        m == spec_non_plain_mask(w),
{
    let non_ascii = w & 0x8080808080808080u64;
    let control = (w.wrapping_add(0x6060606060606060u64) ^ 0x8080808080808080u64)
        & 0x8080808080808080u64;
    let xor_quote = w ^ 0x2222222222222222u64;
    let quote = xor_quote.wrapping_sub(0x0101010101010101u64) & !xor_quote
        & 0x8080808080808080u64;
    let xor_bslash = w ^ 0x5c5c5c5c5c5c5c5cu64;
    let bslash = xor_bslash.wrapping_sub(0x0101010101010101u64) & !xor_bslash
        & 0x8080808080808080u64;
    proof {
        assert(vstd::wrapping::u64_specs::wrapping_add(w, 0x6060606060606060u64) == (w
            + 0x6060606060606060u64) as u64) by (bit_vector);
        assert(vstd::wrapping::u64_specs::wrapping_sub(xor_quote, 0x0101010101010101u64) == (
        xor_quote - 0x0101010101010101u64) as u64) by (bit_vector);
        assert(vstd::wrapping::u64_specs::wrapping_sub(xor_bslash, 0x0101010101010101u64) == (
        xor_bslash - 0x0101010101010101u64) as u64) by (bit_vector);
    }
    non_ascii | control | quote | bslash
}

/// Checks whether all eight bytes of `w` are plain ASCII.
pub fn is_all_plain_ascii(w: u64) -> (r: bool)
    ensures
        r == all_plain(w),
{
    proof {
        lemma_mask_zero_iff_all_plain(w);
    }
    non_plain_mask(w) == 0
}

/// The byte offset of the first byte of `w` that is not plain ASCII.
pub fn first_non_plain_offset(w: u64) -> (k: usize)
    requires
        !all_plain(w),
    ensures
        k == first_non_plain(w),
        k < 8,
{
    let fail = non_plain_mask(w);
    let tz = fail.trailing_zeros();
    proof {
        lemma_first_non_plain(w);
        let k = first_non_plain(w);
        lemma_first_set_bit(w, k);
        vstd::std_specs::bits::axiom_u64_trailing_zeros(fail);
        let n = (8 * k + 7) as u64;
        if (tz as u64) < n {
            let t = tz as u64;
            assert(t < n && n < 64 && fail & (((1u64 << n) - 1) as u64) == 0 ==> (fail >> t) & 1
                == 0) by (bit_vector);
        }
        if (tz as u64) > n {
            assert((fail >> n) & 1u64 == 0u64);
        }
        assert(tz as u64 == n);
    }
    (tz / 8) as usize
}

/// Reads the eight bytes at `i` as a word, the byte at `i` least significant.
fn load_word(s: &[u8], i: usize) -> (w: u64)
    requires
        i + 8 <= s.len(),
    ensures
        forall|j: int| 0 <= j < 8 ==> #[trigger] byte_at(w, j as u64) == s[i + j],
{
    let b0 = s[i] as u64;
    let b1 = s[i + 1] as u64;
    let b2 = s[i + 2] as u64;
    let b3 = s[i + 3] as u64;
    let b4 = s[i + 4] as u64;
    let b5 = s[i + 5] as u64;
    let b6 = s[i + 6] as u64;
    let b7 = s[i + 7] as u64;
    let w = b0 | (b1 << 8) | (b2 << 16) | (b3 << 24) | (b4 << 32) | (b5 << 40) | (b6 << 48) | (
    b7 << 56);
    proof {
        assert(b0 < 256 && b1 < 256 && b2 < 256 && b3 < 256 && b4 < 256 && b5 < 256 && b6 < 256
            && b7 < 256 && w == b0 | (b1 << 8) | (b2 << 16) | (b3 << 24) | (b4 << 32) | (b5 << 40)
            | (b6 << 48) | (b7 << 56) ==> byte_at(w, 0) == b0 && byte_at(w, 1) == b1 && byte_at(w, 2)
            == b2 && byte_at(w, 3) == b3 && byte_at(w, 4) == b4 && byte_at(w, 5) == b5 && byte_at(
            w,
            6,
        ) == b6 && byte_at(w, 7) == b7) by (bit_vector);
        assert forall|j: int| 0 <= j < 8 implies #[trigger] byte_at(w, j as u64) == s[i + j] by {
            if j == 0 {} else if j == 1 {} else if j == 2 {} else if j == 3 {} else if j == 4 {}
            else if j == 5 {} else if j == 6 {} else {}
        }
    }
    w
}

/// Returns the number of leading bytes of `s` that are plain ASCII for JSON strings:
/// not a control character, not `"`, not `\`, and below 0x80 (so byte and character
/// boundaries coincide).
pub fn skip_plain_ascii_bytes(s: &[u8]) -> (n: usize)
    ensures
        n <= s.len(),
        forall|i: int| 0 <= i < n ==> is_plain_ascii(#[trigger] s[i]),
        n < s.len() ==> !is_plain_ascii(s[n as int]),
{
    let mut i: usize = 0;
    while s.len() - i >= 8
        invariant
            i <= s.len(),
            forall|j: int| 0 <= j < i ==> is_plain_ascii(#[trigger] s[j]),
        decreases s.len() - i,
    {
        let w = load_word(s, i);
        proof {
            lemma_first_non_plain(w);
        }
        if is_all_plain_ascii(w) {
            assert forall|j: int| 0 <= j < i + 8 implies is_plain_ascii(#[trigger] s[j]) by {
                if j >= i {
                    let d = j - i;
                    assert(s[j] == byte_at(w, d as u64));
                    if d == 0 {} else if d == 1 {} else if d == 2 {} else if d == 3 {}
                    else if d == 4 {} else if d == 5 {} else if d == 6 {} else {}
                }
            }
            i += 8;
        } else {
            let k = first_non_plain_offset(w);
            assert forall|j: int| 0 <= j < i + k implies is_plain_ascii(#[trigger] s[j]) by {
                if j >= i {
                    let d = j - i;
                    assert(s[j] == byte_at(w, d as u64));
                    if d == 0 {} else if d == 1 {} else if d == 2 {} else if d == 3 {}
                    else if d == 4 {} else if d == 5 {} else {}
                }
            }
            assert(s[i + k] == byte_at(w, k as u64));
            return i + k;
        }
    }
    while i < s.len() && is_plain_ascii_byte(s[i])
        invariant
            i <= s.len(),
            forall|j: int| 0 <= j < i ==> is_plain_ascii(#[trigger] s[j]),
        decreases s.len() - i,
    {
        i += 1;
    }
    i
}

/// Returns the number of leading bytes of `s` that are not ASCII (bit 7 set).
///
/// When `s` starts at a character boundary of UTF-8 text, the run ends at an ASCII
/// byte, which is also a character boundary.
pub fn skip_non_ascii_bytes(s: &[u8]) -> (n: usize)
    ensures
        n <= s.len(),
        forall|i: int| 0 <= i < n ==> #[trigger] s[i] >= 0x80,
        n < s.len() ==> s[n as int] < 0x80,
{
    let mut i: usize = 0;
    while s.len() - i >= 8
        invariant
            i <= s.len(),
            forall|j: int| 0 <= j < i ==> #[trigger] s[j] >= 0x80,
        decreases s.len() - i,
    {
        let w = load_word(s, i);
        if w & 0x8080808080808080u64 == 0x8080808080808080u64 {
            proof {
                assert(w & 0x8080808080808080u64 == 0x8080808080808080u64 ==> byte_at(w, 0) >= 0x80
                    && byte_at(w, 1) >= 0x80 && byte_at(w, 2) >= 0x80 && byte_at(w, 3) >= 0x80
                    && byte_at(w, 4) >= 0x80 && byte_at(w, 5) >= 0x80 && byte_at(w, 6) >= 0x80
                    && byte_at(w, 7) >= 0x80) by (bit_vector);
                assert forall|j: int| 0 <= j < i + 8 implies #[trigger] s[j] >= 0x80 by {
                    if j >= i {
                        let d = j - i;
                        assert(s[j] == byte_at(w, d as u64));
                        if d == 0 {} else if d == 1 {} else if d == 2 {} else if d == 3 {}
                        else if d == 4 {} else if d == 5 {} else if d == 6 {} else {}
                    }
                }
            }
            i += 8;
        } else {
            break;
        }
    }
    while i < s.len() && s[i] & 0x80 != 0
        invariant
            i <= s.len(),
            forall|j: int| 0 <= j < i ==> #[trigger] s[j] >= 0x80,
        decreases s.len() - i,
    {
        proof {
            let b = s[i as int];
            assert(b & 0x80 != 0 ==> b >= 0x80) by (bit_vector);
        }
        i += 1;
    }
    proof {
        if i < s.len() {
            let b = s[i as int];
            assert(b & 0x80 == 0 ==> b < 0x80) by (bit_vector);
        }
    }
    i
}

/// Returns the number of leading ASCII digits of `s`.
pub fn skip_ascii_digits(s: &[u8]) -> (n: usize)
    ensures
        n <= s.len(),
        forall|i: int| 0 <= i < n ==> 0x30 <= #[trigger] s[i] <= 0x39,
        n < s.len() ==> !(0x30 <= s[n as int] <= 0x39),
{
    let mut i: usize = 0;
    while i < s.len() && 0x30 <= s[i] && s[i] <= 0x39
        invariant
            i <= s.len(),
            forall|j: int| 0 <= j < i ==> 0x30 <= #[trigger] s[j] <= 0x39,
        decreases s.len() - i,
    {
        i += 1;
    }
    i
}

} // verus!
