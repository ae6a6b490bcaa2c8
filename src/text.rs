use vstd::prelude::*;
use vstd::string::StringSliceAdditionalSpecFns;
use vstd::utf8::{
    encode_utf8_valid_utf8, is_char_boundary, is_char_boundary_iff_not_is_continuation_byte,
    is_char_boundary_start_end_of_seq, length_of_first_scalar, pop_first_scalar, valid_utf8, valid_utf8_split,
};

verus! {

/// In valid UTF-8, the byte right after an ASCII byte starts a character.
pub proof fn lemma_boundary_after_ascii(b: Seq<u8>, i: int)
    requires
        valid_utf8(b),
        0 <= i < b.len(),
        b[i] < 0x80,
    ensures
        is_char_boundary(b, i + 1),
{
    if i + 1 == b.len() {
        is_char_boundary_start_end_of_seq(b);
    } else {
        is_char_boundary_iff_not_is_continuation_byte(b, i);
        valid_utf8_split(b, i);
        let suf = b.subrange(i, b.len() as int);
        assert(suf[0] == b[i]);
        assert(valid_utf8(suf));
        reveal_with_fuel(valid_utf8, 2);
        reveal_with_fuel(is_char_boundary, 2);
        assert(length_of_first_scalar(suf) == 1);
        assert(valid_utf8(pop_first_scalar(suf)));
        assert(is_char_boundary(suf, 1));
        is_char_boundary_iff_not_is_continuation_byte(suf, 1);
        assert(suf[1] == b[i + 1]);
        is_char_boundary_iff_not_is_continuation_byte(b, i + 1);
    }
}

/// In valid UTF-8, an ASCII byte starts a character.
pub proof fn lemma_boundary_at_ascii(b: Seq<u8>, i: int)
    requires
        valid_utf8(b),
        0 <= i < b.len(),
        b[i] < 0x80,
    ensures
        is_char_boundary(b, i),
{
    is_char_boundary_iff_not_is_continuation_byte(b, i);
}

/// The part of `s` between two character boundaries, as byte positions.
pub fn slice_str(s: &str, a: usize, b: usize) -> (r: &str)
    requires
        a <= b <= s.spec_bytes().len(),
        is_char_boundary(s.spec_bytes(), a as int),
        is_char_boundary(s.spec_bytes(), b as int),
    ensures
        r.spec_bytes() == s.spec_bytes().subrange(a as int, b as int),
{
    let ghost bytes = s.spec_bytes();
    let (_, tail) = s.split_at(a);
    proof {
        encode_utf8_valid_utf8(s@);
        encode_utf8_valid_utf8(tail@);
        let tb = tail.spec_bytes();
        if b as int == bytes.len() {
            is_char_boundary_start_end_of_seq(tb);
        } else {
            is_char_boundary_iff_not_is_continuation_byte(bytes, b as int);
            assert(tb[b - a] == bytes[b as int]);
            is_char_boundary_iff_not_is_continuation_byte(tb, b - a);
        }
    }
    let (mid, _) = tail.split_at(b - a);
    proof {
        assert(mid.spec_bytes() =~= bytes.subrange(a as int, b as int));
    }
    mid
}

} // verus!
