//! Finding the first word of a text.

use vstd::prelude::*;
use vstd::string::StringSliceAdditionalSpecFns;
use vstd::utf8::{
    encode_utf8, encode_utf8_valid_utf8, is_char_boundary,
    is_char_boundary_iff_not_is_continuation_byte, is_char_boundary_start_end_of_seq,
    is_continuation_byte,
};

verus! {

/// The first position at or after `from` that holds a space, or the length
/// of `bytes` where there is none.
pub open spec fn first_space_from(bytes: Seq<u8>, from: int) -> int
    decreases bytes.len() - from,
{
    if from >= bytes.len() {
        bytes.len() as int
    } else if bytes[from] == 32u8 {
        from
    } else {
        first_space_from(bytes, from + 1)
    }
}

/// Where the first word of `bytes` ends: at the first space, or at the end.
pub open spec fn first_space(bytes: Seq<u8>) -> int {
    first_space_from(bytes, 0)
}

/// No space stands before the end of the first word, and a space stands at
/// it unless the text is over.
pub proof fn lemma_first_space(bytes: Seq<u8>, from: int)
    requires
        0 <= from <= bytes.len(),
    ensures
        from <= first_space_from(bytes, from) <= bytes.len(),
        forall|j: int| from <= j < first_space_from(bytes, from) ==> bytes[j] != 32u8,
        first_space_from(bytes, from) < bytes.len() ==> bytes[first_space_from(bytes, from)]
            == 32u8,
    decreases bytes.len() - from,
{
    if from < bytes.len() && bytes[from] != 32u8 {
        lemma_first_space(bytes, from + 1);
    }
}

/// The end of the first word of `s`, as an offset in bytes.
fn word_end(s: &str) -> (end: usize)
    ensures
        end == first_space(s.spec_bytes()),
        end <= s.spec_bytes().len(),
        is_char_boundary(s.spec_bytes(), end as int),
{
    let bytes: &[u8] = s.as_bytes();
    proof {
        encode_utf8_valid_utf8(s@);
        is_char_boundary_start_end_of_seq(bytes@);
    }
    let mut i: usize = 0;
    while i < bytes.len()
        invariant
            i <= bytes.len(),
            bytes@ == s.spec_bytes(),
            first_space(bytes@) == first_space_from(bytes@, i as int),
        decreases bytes.len() - i,
    {
        if bytes[i] == 32u8 {
            proof {
                encode_utf8_valid_utf8(s@);
                assert(!is_continuation_byte(bytes@[i as int]));
                is_char_boundary_iff_not_is_continuation_byte(bytes@, i as int);
            }
            return i;
        }
        i = i + 1;
    }
    bytes.len()
}

/// The offset in bytes at which the first word of `s` ends: that of the
/// first space, or the length of `s` where it holds none.
pub fn first_word(s: &String) -> (end: usize)
    ensures
        end == first_space(encode_utf8(s@)),
{
    word_end(s.as_str())
}

/// The first word of `s`: what stands before the first space, or all of `s`
/// where it holds none.
pub fn first_word_2(s: &String) -> (word: &str)
    ensures
        word.spec_bytes() == encode_utf8(s@).subrange(0, first_space(encode_utf8(s@))),
{
    first_word_3(s.as_str())
}

/// The first word of `s`: what stands before the first space, or all of `s`
/// where it holds none.
pub fn first_word_3(s: &str) -> (word: &str)
    ensures
        word.spec_bytes() == s.spec_bytes().subrange(0, first_space(s.spec_bytes())),
{
    let end: usize = word_end(s);
    let parts: (&str, &str) = s.split_at(end);
    parts.0
}

} // verus!
