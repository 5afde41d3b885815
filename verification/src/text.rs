//! Parts of a text by byte offsets, and the comparison of texts.

use vstd::prelude::*;
use vstd::string::StringSliceAdditionalSpecFns;
use vstd::utf8::{
    decode_utf8, encode_utf8, encode_utf8_decode_utf8, encode_utf8_valid_utf8, is_char_boundary,
    is_char_boundary_iff_not_is_continuation_byte, is_char_boundary_start_end_of_seq,
    pop_first_scalar, valid_utf8, valid_utf8_split,
};

verus! {

/// Whether the bytes of `s` from `start` up to `end` can be cut out as a
/// text of their own: the range lies inside `s` and splits no character.
pub open spec fn sliceable(s: Seq<u8>, start: int, end: int) -> bool {
    0 <= start <= end <= s.len() && is_char_boundary(s, start) && is_char_boundary(s, end)
}

/// The characters that the bytes of `s` from `start` up to `end` encode.
pub open spec fn text_of(s: Seq<u8>, start: int, end: int) -> Seq<char> {
    decode_utf8(s.subrange(start, end))
}

/// In a valid text an ASCII byte starts a character.
pub proof fn lemma_boundary_at_ascii(s: Seq<u8>, i: int)
    requires
        valid_utf8(s),
        0 <= i < s.len(),
        s[i] <= 0x7f,
    ensures
        is_char_boundary(s, i),
{
    is_char_boundary_iff_not_is_continuation_byte(s, i);
}

/// In a valid text a character starts, or the text ends, after an ASCII
/// byte.
pub proof fn lemma_boundary_after_ascii(s: Seq<u8>, i: int)
    requires
        valid_utf8(s),
        0 <= i < s.len(),
        s[i] <= 0x7f,
    ensures
        is_char_boundary(s, i + 1),
{
    if i + 1 == s.len() {
        is_char_boundary_start_end_of_seq(s);
    } else {
        lemma_boundary_at_ascii(s, i);
        valid_utf8_split(s, i);
        assert(valid_utf8(pop_first_scalar(s.subrange(i, s.len() as int))));
        is_char_boundary_iff_not_is_continuation_byte(s, i + 1);
    }
}

/// Cuts the bytes from `start` up to `end` out of `text`.
///
/// Returns the part where the range lies inside the text and splits no
/// character, and `None` otherwise.
pub fn slice<'src>(text: &'src str, start: usize, end: usize) -> (r: Option<&'src str>)
    ensures
        r is Some <==> sliceable(text.spec_bytes(), start as int, end as int),
        r matches Some(part) ==> part.spec_bytes() == text.spec_bytes().subrange(
            start as int,
            end as int,
        ) && part@ == text_of(text.spec_bytes(), start as int, end as int),
{
    let len = text.as_bytes().len();
    proof {
        encode_utf8_valid_utf8(text@);
    }
    if start <= end && end <= len && text.is_char_boundary(start) && text.is_char_boundary(end) {
        let (head, _) = text.split_at(end);
        proof {
            encode_utf8_valid_utf8(head@);
            if start < end {
                is_char_boundary_iff_not_is_continuation_byte(text.spec_bytes(), start as int);
                is_char_boundary_iff_not_is_continuation_byte(head.spec_bytes(), start as int);
            } else {
                is_char_boundary_start_end_of_seq(head.spec_bytes());
            }
        }
        let (_, part) = head.split_at(start);
        proof {
            encode_utf8_decode_utf8(part@);
        }
        Some(part)
    } else {
        None
    }
}

/// Two texts with the same bytes have the same characters.
pub proof fn lemma_same_bytes_same_text(a: Seq<char>, b: Seq<char>)
    requires
        encode_utf8(a) == encode_utf8(b),
    ensures
        a == b,
{
    encode_utf8_decode_utf8(a);
    encode_utf8_decode_utf8(b);
}

/// Tests whether two texts are the same.
pub fn same_text(a: &str, b: &str) -> (r: bool)
    ensures
        r == (a@ == b@),
{
    let x = a.as_bytes();
    let y = b.as_bytes();
    if x.len() != y.len() {
        return false;
    }
    let mut i: usize = 0;
    while i < x.len()
        invariant
            i <= x@.len(),
            x@.len() == y@.len(),
            x@ == a.spec_bytes(),
            y@ == b.spec_bytes(),
            forall|k: int| 0 <= k < i ==> x@[k] == y@[k],
        decreases x@.len() - i,
    {
        if x[i] != y[i] {
            return false;
        }
        i += 1;
    }
    proof {
        assert(x@ =~= y@);
        lemma_same_bytes_same_text(a@, b@);
    }
    true
}

} // verus!
