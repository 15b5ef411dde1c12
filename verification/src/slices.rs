//! Slicing a text at positions next to ASCII bytes, which are always character
//! boundaries of valid UTF-8.
use vstd::prelude::*;
use vstd::string::StringSliceAdditionalSpecFns;
use vstd::utf8::{
    valid_utf8, is_char_boundary, is_char_boundary_iff_not_is_continuation_byte,
    is_char_boundary_start_end_of_seq, valid_utf8_split, encode_utf8_valid_utf8,
    valid_first_scalar, pop_first_scalar, is_continuation_byte, valid_utf8_concat,
};

verus! {

/// Position `k` of `b` touches an ASCII byte (or an end of `b`).
pub open spec fn ascii_edge(b: Seq<u8>, k: int) -> bool {
    ||| k == 0
    ||| k == b.len()
    ||| (0 <= k < b.len() && b[k] < 0x80)
    ||| (0 < k <= b.len() && b[k - 1] < 0x80)
}

/// A position next to an ASCII byte of valid UTF-8 is a character boundary.
pub proof fn lemma_ascii_edge_boundary(b: Seq<u8>, k: int)
    requires
        valid_utf8(b),
        0 <= k <= b.len(),
        ascii_edge(b, k),
    ensures
        is_char_boundary(b, k),
{
    is_char_boundary_start_end_of_seq(b);
    if k == 0 || k == b.len() {
    } else if b[k] < 0x80 {
        is_char_boundary_iff_not_is_continuation_byte(b, k);
    } else {
        is_char_boundary_iff_not_is_continuation_byte(b, k - 1);
        valid_utf8_split(b, k - 1);
        let r = b.subrange(k - 1, b.len() as int);
        assert(valid_first_scalar(r));
        assert(pop_first_scalar(r) =~= b.subrange(k, b.len() as int));
        let r2 = b.subrange(k, b.len() as int);
        assert(valid_utf8(r2));
        assert(valid_first_scalar(r2));
        assert(r2[0] == b[k]);
        assert(!is_continuation_byte(b[k]));
        is_char_boundary_iff_not_is_continuation_byte(b, k);
    }
}

/// The bytes between two character boundaries of valid UTF-8 are valid UTF-8.
pub proof fn lemma_slice_valid(b: Seq<u8>, a: int, c: int)
    requires
        valid_utf8(b),
        0 <= a <= c <= b.len(),
        is_char_boundary(b, a),
        is_char_boundary(b, c),
    ensures
        valid_utf8(b.subrange(a, c)),
{
    valid_utf8_split(b, c);
    let head = b.subrange(0, c);
    is_char_boundary_start_end_of_seq(b);
    if a == c {
        assert(b.subrange(a, c).len() == 0);
    } else if a == 0 {
        assert(b.subrange(a, c) =~= head);
    } else {
        is_char_boundary_iff_not_is_continuation_byte(b, a);
        assert(head[a] == b[a]);
        is_char_boundary_iff_not_is_continuation_byte(head, a);
        valid_utf8_split(head, a);
        assert(head.subrange(a, head.len() as int) =~= b.subrange(a, c));
    }
}

/// Valid UTF-8 stays valid when valid UTF-8 is appended.
pub proof fn lemma_concat_valid(a: Seq<u8>, b: Seq<u8>)
    requires
        valid_utf8(a),
        valid_utf8(b),
    ensures
        valid_utf8(a + b),
{
    valid_utf8_concat(a, b);
}

/// A single ASCII byte is valid UTF-8.
pub proof fn lemma_ascii_byte_valid(x: u8)
    requires
        x < 0x80,
    ensures
        valid_utf8(seq![x]),
{
    reveal_with_fuel(valid_utf8, 2);
    assert(pop_first_scalar(seq![x]) =~= Seq::<u8>::empty());
}

/// The bytes of a string slice are valid UTF-8.
pub proof fn lemma_str_valid(s: &str)
    ensures
        valid_utf8(s.spec_bytes()),
{
    encode_utf8_valid_utf8(s@);
}

/// The part of `s` from byte `a` up to byte `c`; both must be character boundaries.
pub fn str_slice<'a>(s: &'a str, a: usize, c: usize) -> (r: &'a str)
    requires
        a <= c <= s.spec_bytes().len(),
        is_char_boundary(s.spec_bytes(), a as int),
        is_char_boundary(s.spec_bytes(), c as int),
    ensures
        r.spec_bytes() == s.spec_bytes().subrange(a as int, c as int),
{
    proof {
        lemma_str_valid(s);
        valid_utf8_split(s.spec_bytes(), c as int);
        lemma_slice_valid(s.spec_bytes(), 0, c as int);
    }
    let (head, _) = s.split_at(c);
    proof {
        let h = head.spec_bytes();
        assert(h =~= s.spec_bytes().subrange(0, c as int));
        is_char_boundary_start_end_of_seq(s.spec_bytes());
        if 0 < a < c {
            is_char_boundary_iff_not_is_continuation_byte(s.spec_bytes(), a as int);
            assert(h[a as int] == s.spec_bytes()[a as int]);
            is_char_boundary_iff_not_is_continuation_byte(h, a as int);
        } else {
            is_char_boundary_start_end_of_seq(h);
        }
    }
    let (_, tail) = head.split_at(a);
    proof {
        assert(tail.spec_bytes() =~= s.spec_bytes().subrange(a as int, c as int));
    }
    tail
}

} // verus!
